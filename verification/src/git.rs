//! What a finished git command means: the branch it names, the branches it
//! lists, the status map it reports, or the error it ended in.
use vstd::prelude::*;
use crate::status::{classify, kind_of, StatusKind, StatusMap};
use crate::text::{lines, lines_of, same_text, texts, to_chars, trim, trimmed};

verus! {

/// How one run of the git command ended, as the caller that ran it saw it.
#[derive(Debug, PartialEq, Eq)]
pub enum CommandOutcome {
    /// The process could not be started; `reason` describes why.
    LaunchFailed { reason: String },
    /// The process ran to its end.
    Exited { success: bool, stdout: Vec<u8>, stderr: Vec<u8> },
}

/// Why a query gave no result.
#[derive(Debug, PartialEq, Eq)]
pub enum GitError {
    /// Git could not be started; holds the system's description.
    ProcessLaunch(String),
    /// Git ran and reported failure; holds what it wrote to standard error.
    Command(String),
}

/// One of the queries that this library reads the answer of.
#[derive(Debug, PartialEq, Eq)]
pub enum GitQuery {
    CurrentBranch,
    AllBranches,
    Checkout { branch: String },
    Status,
    InsideWorkTree,
    Init,
}

/// One run of git, ready to be started by whoever can start a process.
#[derive(Debug, PartialEq, Eq)]
pub struct CommandPlan {
    /// The program to run.
    pub program: String,
    /// Its arguments, in order.
    pub args: Vec<String>,
    /// The directory to run it in.
    pub working_dir: String,
    /// Whether the process is to be started without a console window, where
    /// the platform would open one.
    pub suppress_console: bool,
}

/// The arguments that git takes for a query.
pub open spec fn arguments_of(query: GitQuery) -> Seq<Seq<char>> {
    match query {
        GitQuery::CurrentBranch => seq!["branch"@, "--show-current"@],
        GitQuery::AllBranches => seq!["branch"@, "--list"@],
        GitQuery::Checkout { branch } => seq!["checkout"@, branch@],
        GitQuery::Status => seq!["status"@, "--short"@, "--porcelain"@],
        GitQuery::InsideWorkTree => seq!["rev-parse"@, "--is-inside-work-tree"@],
        GitQuery::Init => seq!["init"@],
    }
}

impl GitQuery {
    /// Returns the arguments that git takes for the query.
    pub fn arguments(&self) -> (args: Vec<String>)
        ensures
            texts(args@) == arguments_of(*self),
    {
        let mut args: Vec<String> = Vec::new();
        match self {
            GitQuery::CurrentBranch => {
                args.push("branch".to_owned());
                args.push("--show-current".to_owned());
            },
            GitQuery::AllBranches => {
                args.push("branch".to_owned());
                args.push("--list".to_owned());
            },
            GitQuery::Checkout { branch } => {
                args.push("checkout".to_owned());
                args.push(branch.clone());
            },
            GitQuery::Status => {
                args.push("status".to_owned());
                args.push("--short".to_owned());
                args.push("--porcelain".to_owned());
            },
            GitQuery::InsideWorkTree => {
                args.push("rev-parse".to_owned());
                args.push("--is-inside-work-tree".to_owned());
            },
            GitQuery::Init => {
                args.push("init".to_owned());
            },
        }
        assert(texts(args@) =~= arguments_of(*self));
        args
    }

    /// Plans the run of git that answers the query in `working_dir`.
    pub fn plan(&self, working_dir: &str, suppress_console: bool) -> (plan: CommandPlan)
        ensures
            plan.program@ == "git"@,
            texts(plan.args@) == arguments_of(*self),
            plan.working_dir@ == working_dir@,
            plan.suppress_console == suppress_console,
    {
        CommandPlan {
            program: "git".to_owned(),
            args: self.arguments(),
            working_dir: working_dir.to_owned(),
            suppress_console,
        }
    }
}

/// The text that lossy UTF-8 decoding makes of `bytes`.
pub uninterp spec fn utf8_lossy(bytes: Seq<u8>) -> Seq<char>;

/// Calls `String::from_utf8_lossy` and takes ownership of what it returns.
/// The contract only names the decoded text: it is a function of the bytes
/// alone, and nothing more is claimed of it.
#[verifier::external_body]
fn decode_lossy(bytes: &[u8]) -> (text: String)
    ensures
        text@ == utf8_lossy(bytes@),
{
    String::from_utf8_lossy(bytes).into_owned()
}

/// The command ran and reported success.
pub open spec fn succeeded(outcome: &CommandOutcome) -> bool {
    outcome matches CommandOutcome::Exited { success: true, .. }
}

/// The decoded standard output of a command that ran.
pub open spec fn stdout_text(outcome: &CommandOutcome) -> Seq<char> {
    match outcome {
        CommandOutcome::Exited { stdout, .. } => utf8_lossy(stdout@),
        CommandOutcome::LaunchFailed { .. } => Seq::empty(),
    }
}

/// `e` is the error that `outcome` ends in: a launch failure carries the
/// system's description, a failed run carries the decoded standard error.
pub open spec fn fails_as(outcome: &CommandOutcome, e: GitError) -> bool {
    match outcome {
        CommandOutcome::LaunchFailed { reason } => match e {
            GitError::ProcessLaunch(d) => d@ == reason@,
            GitError::Command(_) => false,
        },
        CommandOutcome::Exited { success, stderr, .. } => match e {
            GitError::ProcessLaunch(_) => false,
            GitError::Command(t) => !*success && t@ == utf8_lossy(stderr@),
        },
    }
}

/// The text of the message that an error shows.
pub open spec fn message_text(e: GitError) -> Seq<char> {
    match e {
        GitError::ProcessLaunch(d) => "Failed to execute git command: "@ + d@,
        GitError::Command(t) => t@,
    }
}

impl GitError {
    /// The message for the user: a launch failure is introduced as such, a
    /// failed command's error text is shown as it came.
    pub fn message(&self) -> (r: String)
        ensures
            r@ == message_text(*self),
    {
        match self {
            GitError::ProcessLaunch(d) => {
                let mut r = "Failed to execute git command: ".to_owned();
                r.append(d.as_str());
                r
            },
            GitError::Command(t) => t.clone(),
        }
    }
}

/// The decoded standard output of a successful run, or the error of a run
/// that failed or never started.
pub fn checked_stdout(outcome: &CommandOutcome) -> (r: Result<String, GitError>)
    ensures
        match r {
            Ok(text) => succeeded(outcome) && text@ == stdout_text(outcome),
            Err(e) => !succeeded(outcome) && fails_as(outcome, e),
        },
{
    match outcome {
        CommandOutcome::LaunchFailed { reason } => Err(GitError::ProcessLaunch(reason.clone())),
        CommandOutcome::Exited { success, stdout, stderr } => {
            if *success {
                Ok(decode_lossy(stdout.as_slice()))
            } else {
                Err(GitError::Command(decode_lossy(stderr.as_slice())))
            }
        },
    }
}

/// The index behind every repetition of the marker `"* "` that starts at `i`.
pub open spec fn marker_end(l: Seq<char>, i: int) -> int
    decreases l.len() - i,
{
    if 0 <= i && i + 2 <= l.len() && l[i] == '*' && l[i + 1] == ' ' {
        marker_end(l, i + 2)
    } else {
        i
    }
}

/// The branch that a line of a branch listing names: the line without the
/// current-branch markers at its start, then trimmed.
pub open spec fn branch_name(l: Seq<char>) -> Seq<char> {
    trimmed(l.subrange(marker_end(l, 0), l.len() as int))
}

/// The non-empty branch names of the given lines, in their order.
pub open spec fn branches_of(ls: Seq<Seq<char>>) -> Seq<Seq<char>>
    decreases ls.len(),
{
    if ls.len() == 0 {
        Seq::empty()
    } else {
        let before = branches_of(ls.drop_last());
        let name = branch_name(ls.last());
        if name.len() == 0 {
            before
        } else {
            before.push(name)
        }
    }
}

/// No branch name in a list is empty, and there are at most as many names
/// as lines.
pub proof fn lemma_branches_of(ls: Seq<Seq<char>>)
    ensures
        branches_of(ls).len() <= ls.len(),
        forall|i: int| 0 <= i < branches_of(ls).len() ==> (#[trigger] branches_of(ls)[i]).len() > 0,
    decreases ls.len(),
{
    if ls.len() > 0 {
        lemma_branches_of(ls.drop_last());
    }
}

/// The branches that a branch listing names.
pub open spec fn branch_list(text: Seq<char>) -> Seq<Seq<char>> {
    branches_of(lines_of(text))
}

/// Reads the branch name off one line of a branch listing.
pub fn parse_branch_line(line: &str) -> (name: &str)
    ensures
        name@ == branch_name(line@),
{
    let v = to_chars(line);
    let n: usize = v.len();
    let mut i: usize = 0;
    while n - i >= 2 && v[i] == '*' && v[i + 1] == ' '
        invariant
            v@ == line@,
            n == v@.len(),
            i <= n,
            marker_end(line@, i as int) == marker_end(line@, 0),
        decreases n - i,
    {
        i += 2;
    }
    trim(line.substring_char(i, n))
}

/// Reads a branch listing: one name per line, markers and surrounding
/// whitespace removed, empty lines left out, order kept.
pub fn parse_branches(text: &str) -> (names: Vec<String>)
    ensures
        texts(names@) == branch_list(text@),
{
    let ls = lines(text);
    let mut names: Vec<String> = Vec::new();
    let mut j: usize = 0;
    while j < ls.len()
        invariant
            j <= ls@.len(),
            texts(names@) == branches_of(texts(ls@).take(j as int)),
        decreases ls@.len() - j,
    {
        let name = parse_branch_line(ls[j].as_str());
        proof {
            let upto = texts(ls@).take(j + 1);
            assert(upto.drop_last() =~= texts(ls@).take(j as int));
            assert(upto.last() == ls@[j as int]@);
        }
        if name.unicode_len() > 0 {
            let owned = name.to_owned();
            proof {
                assert(texts(names@.push(owned)) =~= texts(names@).push(owned@));
            }
            names.push(owned);
        }
        j += 1;
    }
    assert(texts(ls@).take(ls@.len() as int) =~= texts(ls@));
    names
}

/// A status line is read only if it holds a code, a separator and at least
/// one more character.
pub open spec fn is_status_line(l: Seq<char>) -> bool {
    l.len() >= 4
}

/// The trimmed status code of a status line: its first two characters.
pub open spec fn line_code(l: Seq<char>) -> Seq<char> {
    trimmed(l.subrange(0, 2))
}

/// The trimmed path of a status line: what follows its third character.
pub open spec fn line_path(l: Seq<char>) -> Seq<char> {
    trimmed(l.subrange(3, l.len() as int))
}

/// `rel` below `dir`: a separator is put between them unless `dir` ends
/// with one.
pub open spec fn joined(dir: Seq<char>, rel: Seq<char>) -> Seq<char> {
    if dir.len() > 0 && dir.last() == '/' {
        dir + rel
    } else {
        dir + seq!['/'] + rel
    }
}

/// The map that the given status lines build, read in their order: a later
/// line for a path replaces an earlier one.
pub open spec fn status_of(ls: Seq<Seq<char>>, dir: Seq<char>) -> Map<Seq<char>, StatusKind>
    decreases ls.len(),
{
    if ls.len() == 0 {
        Map::empty()
    } else {
        let before = status_of(ls.drop_last(), dir);
        let l = ls.last();
        if is_status_line(l) {
            before.insert(joined(dir, line_path(l)), kind_of(line_code(l)))
        } else {
            before
        }
    }
}

/// The keys of the map are the absolute paths of the lines that are read.
pub proof fn lemma_status_keys(ls: Seq<Seq<char>>, dir: Seq<char>)
    ensures
        forall|k: Seq<char>| #[trigger]
            status_of(ls, dir).contains_key(k) <==> exists|i: int|
                0 <= i < ls.len() && is_status_line(#[trigger] ls[i]) && joined(
                    dir,
                    line_path(ls[i]),
                ) == k,
    decreases ls.len(),
{
    if ls.len() > 0 {
        let before = ls.drop_last();
        lemma_status_keys(before, dir);
        assert forall|k: Seq<char>| #[trigger]
            status_of(ls, dir).contains_key(k) implies exists|i: int|
            0 <= i < ls.len() && is_status_line(#[trigger] ls[i]) && joined(dir, line_path(ls[i]))
                == k by {
            if is_status_line(ls.last()) && joined(dir, line_path(ls.last())) == k {
                assert(ls[ls.len() - 1] == ls.last());
            } else {
                assert(status_of(before, dir).contains_key(k));
                let i = choose|i: int|
                    0 <= i < before.len() && is_status_line(#[trigger] before[i]) && joined(
                        dir,
                        line_path(before[i]),
                    ) == k;
                assert(ls[i] == before[i]);
            }
        }
        assert forall|k: Seq<char>|
            (exists|i: int|
                0 <= i < ls.len() && is_status_line(#[trigger] ls[i]) && joined(
                    dir,
                    line_path(ls[i]),
                ) == k) implies #[trigger] status_of(ls, dir).contains_key(k) by {
            let i = choose|i: int|
                0 <= i < ls.len() && is_status_line(#[trigger] ls[i]) && joined(
                    dir,
                    line_path(ls[i]),
                ) == k;
            if i < ls.len() - 1 {
                assert(before[i] == ls[i]);
                assert(status_of(before, dir).contains_key(k));
            }
        }
    }
}

/// The last line that is read for a path decides the path's kind.
pub proof fn lemma_status_last_wins(ls: Seq<Seq<char>>, dir: Seq<char>, i: int)
    requires
        0 <= i < ls.len(),
        is_status_line(ls[i]),
        forall|j: int|
            i < j < ls.len() && is_status_line(#[trigger] ls[j]) ==> joined(dir, line_path(ls[j]))
                != joined(dir, line_path(ls[i])),
    ensures
        status_of(ls, dir).contains_key(joined(dir, line_path(ls[i]))),
        status_of(ls, dir)[joined(dir, line_path(ls[i]))] == kind_of(line_code(ls[i])),
    decreases ls.len(),
{
    if i < ls.len() - 1 {
        let before = ls.drop_last();
        assert(before[i] == ls[i]);
        assert forall|j: int| i < j < before.len() && is_status_line(#[trigger] before[j]) implies joined(
            dir,
            line_path(before[j]),
        ) != joined(dir, line_path(before[i])) by {
            assert(before[j] == ls[j]);
        }
        lemma_status_last_wins(before, dir, i);
        assert(ls.last() == ls[ls.len() - 1]);
    }
}

/// The map that a short-format status report stands for.
pub open spec fn status_report(text: Seq<char>, dir: Seq<char>) -> Map<Seq<char>, StatusKind> {
    status_of(lines_of(text), dir)
}

/// Puts `rel` below `dir`.
pub fn absolute_path(dir: &str, rel: &str) -> (path: String)
    ensures
        path@ == joined(dir@, rel@),
{
    let n: usize = dir.unicode_len();
    let mut path = dir.to_owned();
    if !(n > 0 && dir.get_char(n - 1) == '/') {
        proof {
            reveal_strlit("/");
            assert("/"@ =~= seq!['/']);
        }
        path.append("/");
    }
    path.append(rel);
    path
}

/// Reads a short-format status report into a map from absolute paths to
/// status kinds.
pub fn parse_status(text: &str, working_dir: &str) -> (map: StatusMap)
    ensures
        map.wf(),
        map@ == status_report(text@, working_dir@),
{
    let ls = lines(text);
    let mut map = StatusMap::new();
    let mut j: usize = 0;
    while j < ls.len()
        invariant
            j <= ls@.len(),
            map.wf(),
            map@ == status_of(texts(ls@).take(j as int), working_dir@),
        decreases ls@.len() - j,
    {
        let line = ls[j].as_str();
        let n: usize = line.unicode_len();
        proof {
            let upto = texts(ls@).take(j + 1);
            assert(upto.drop_last() =~= texts(ls@).take(j as int));
            assert(upto.last() == ls@[j as int]@);
        }
        if n >= 4 {
            let code = trim(line.substring_char(0, 2));
            let rel = trim(line.substring_char(3, n));
            let path = absolute_path(working_dir, rel);
            map.insert(path, classify(code));
        }
        j += 1;
    }
    assert(texts(ls@).take(ls@.len() as int) =~= texts(ls@));
    map
}

/// Whether a work-tree query answered with the word `true`.
pub fn reports_work_tree(text: &str) -> (r: bool)
    ensures
        r == (trimmed(text@) == "true"@),
{
    same_text(trim(text), "true")
}

/// The confirmation shown after a switch to `branch`.
pub open spec fn switch_message(branch: Seq<char>) -> Seq<char> {
    "Switched to branch '"@ + branch + "'"@
}

/// The name of the current branch: the trimmed output of the query. An
/// empty name is a result, not an error.
pub fn get_current_branch(outcome: &CommandOutcome) -> (r: Result<String, GitError>)
    ensures
        match r {
            Ok(name) => succeeded(outcome) && name@ == trimmed(stdout_text(outcome)),
            Err(e) => !succeeded(outcome) && fails_as(outcome, e),
        },
{
    match checked_stdout(outcome) {
        Ok(text) => Ok(trim(text.as_str()).to_owned()),
        Err(e) => Err(e),
    }
}

/// The branches that the listing names, in its order.
pub fn get_all_branches(outcome: &CommandOutcome) -> (r: Result<Vec<String>, GitError>)
    ensures
        match r {
            Ok(names) => succeeded(outcome) && texts(names@) == branch_list(stdout_text(outcome)),
            Err(e) => !succeeded(outcome) && fails_as(outcome, e),
        },
{
    match checked_stdout(outcome) {
        Ok(text) => Ok(parse_branches(text.as_str())),
        Err(e) => Err(e),
    }
}

/// The confirmation of a checkout of `branch` that succeeded.
pub fn switch_branch(branch: &str, outcome: &CommandOutcome) -> (r: Result<String, GitError>)
    ensures
        match r {
            Ok(said) => succeeded(outcome) && said@ == switch_message(branch@),
            Err(e) => !succeeded(outcome) && fails_as(outcome, e),
        },
{
    match checked_stdout(outcome) {
        Ok(_) => {
            let mut said = "Switched to branch '".to_owned();
            said.append(branch);
            said.append("'");
            Ok(said)
        },
        Err(e) => Err(e),
    }
}

/// The status of the paths below `working_dir` that the report lists.
pub fn get_git_status(working_dir: &str, outcome: &CommandOutcome) -> (r: Result<
    StatusMap,
    GitError,
>)
    ensures
        match r {
            Ok(map) => succeeded(outcome) && map.wf() && map@ == status_report(
                stdout_text(outcome),
                working_dir@,
            ),
            Err(e) => !succeeded(outcome) && fails_as(outcome, e),
        },
{
    match checked_stdout(outcome) {
        Ok(text) => Ok(parse_status(text.as_str(), working_dir)),
        Err(e) => Err(e),
    }
}

/// Whether the directory lies inside a work tree: git's answer, trimmed, is
/// the word `true`.
pub fn is_git_repo(outcome: &CommandOutcome) -> (r: Result<bool, GitError>)
    ensures
        match r {
            Ok(inside) => succeeded(outcome) && inside == (trimmed(stdout_text(outcome))
                == "true"@),
            Err(e) => !succeeded(outcome) && fails_as(outcome, e),
        },
{
    match checked_stdout(outcome) {
        Ok(text) => Ok(reports_work_tree(text.as_str())),
        Err(e) => Err(e),
    }
}

/// Whether initialisation succeeded: `true` whenever it is no error.
pub fn init_git_repo(outcome: &CommandOutcome) -> (r: Result<bool, GitError>)
    ensures
        match r {
            Ok(done) => succeeded(outcome) && done,
            Err(e) => !succeeded(outcome) && fails_as(outcome, e),
        },
{
    match outcome {
        CommandOutcome::LaunchFailed { reason } => Err(GitError::ProcessLaunch(reason.clone())),
        CommandOutcome::Exited { success, stdout: _, stderr } => {
            if *success {
                Ok(true)
            } else {
                Err(GitError::Command(decode_lossy(stderr.as_slice())))
            }
        },
    }
}

} // verus!
