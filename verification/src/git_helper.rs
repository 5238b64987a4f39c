//! The plan of version-control commands that turns the chosen groups of
//! files into commits. The helper decides which commands are run and reads
//! what they print; running them is left to the caller.

use crate::path::strings_view;
use crate::text::{chars_of, decimal, decimal_text, join_lines, joined, trim_end, trimmed_end};
use rand::Rng;
use vstd::prelude::*;
use vstd::string::*;

verus! {

/// Why the helper could not go on.
#[derive(Debug, PartialEq, Eq)]
pub enum GitCommandError {
    /// The branch was asked to be restored before it was left.
    InvalidFunctionCallError,
    /// The commits to split touch no file.
    EmptyListError { level: u8 },
}

/// A group of files that becomes one commit, with its message.
#[derive(Debug)]
pub struct GitCommitCandidate {
    pub msg: String,
    pub file_paths: Vec<String>,
}

/// The state of a splitting session: how many commits are split, the branch
/// they are on, and the temporary branch the work is done on once it exists.
#[derive(Debug)]
pub struct GitHelper {
    depth: u8,
    curr_branch_name: String,
    temp_branch_name: Option<String>,
}

/// Whether `c` is a letter or a digit of ASCII.
pub open spec fn is_alphanumeric(c: char) -> bool {
    ('a' <= c && c <= 'z') || ('A' <= c && c <= 'Z') || ('0' <= c && c <= '9')
}

/// Whether `key` can be the random part of the name of a temporary branch.
pub open spec fn is_branch_key(key: Seq<char>) -> bool {
    key.len() == 16 && forall|i: int| 0 <= i < key.len() ==> is_alphanumeric(#[trigger] key[i])
}

/// The revision `depth` commits before the head.
pub open spec fn start_revision(depth: u8) -> Seq<char> {
    "HEAD~"@ + decimal(depth as nat)
}

/// The name of the temporary branch with the random part `key`.
pub open spec fn temp_branch_of(key: Seq<char>) -> Seq<char> {
    "tmp-branch/"@ + key
}

/// The name of a branch as the command that asks for it prints it: without
/// the line ends behind it.
pub open spec fn branch_name_in(output: Seq<char>) -> Seq<char> {
    trimmed_end(trimmed_end(output, "\r\n"@), "\n"@)
}

/// Index of the last line feed in `s`, or -1 when `s` holds none.
pub open spec fn last_line_feed(s: Seq<char>) -> int
    decreases s.len(),
{
    if s.len() == 0 {
        -1
    } else if s.last() == '\n' {
        s.len() - 1
    } else {
        last_line_feed(s.drop_last())
    }
}

/// A line without the carriage return at its end, if it has one.
pub open spec fn without_carriage_return(line: Seq<char>) -> Seq<char> {
    if line.len() > 0 && line.last() == '\r' {
        line.drop_last()
    } else {
        line
    }
}

/// The paths that a listing names, one on each line: the lines of `output`
/// without the carriage return at their end, but for those that are empty.
pub open spec fn listed_paths(output: Seq<char>) -> Seq<Seq<char>>
    decreases output.len(),
{
    let i = last_line_feed(output);
    let line = without_carriage_return(output.skip(i + 1));
    let before = if 0 <= i < output.len() {
        listed_paths(output.take(i))
    } else {
        Seq::empty()
    };
    if line.len() > 0 {
        before.push(line)
    } else {
        before
    }
}

/// Draws sixteen characters with `rand::Rng::sample_iter` from the
/// distribution `rand::distributions::Alphanumeric`, which yields letters and
/// digits of ASCII only. Which ones is left open: two calls may differ.
#[verifier::external_body]
fn random_key() -> (key: String)
    ensures
        is_branch_key(key@),
{
    rand::thread_rng().sample_iter(&rand::distributions::Alphanumeric).take(16).map(
        char::from,
    ).collect()
}

/// The last line feed of a text lies within the text, if there is one.
proof fn lemma_last_line_feed(s: Seq<char>)
    ensures
        -1 <= last_line_feed(s) < s.len(),
    decreases s.len(),
{
    if s.len() > 0 && s.last() != '\n' {
        lemma_last_line_feed(s.drop_last());
    }
}

/// Adds the line that `cs` holds from `start` up to `end` to `paths`, without
/// the carriage return at its end, unless it is empty.
fn push_line(paths: &mut Vec<String>, output: &str, cs: &Vec<char>, start: usize, end: usize)
    requires
        cs@ == output@,
        start <= end <= cs.len(),
    ensures
        strings_view(final(paths)@) == if without_carriage_return(
            output@.subrange(start as int, end as int),
        ).len() > 0 {
            strings_view(old(paths)@).push(
                without_carriage_return(output@.subrange(start as int, end as int)),
            )
        } else {
            strings_view(old(paths)@)
        },
{
    let ghost raw = output@.subrange(start as int, end as int);
    let mut stop: usize = end;
    if start < stop && cs[stop - 1] == '\r' {
        stop = stop - 1;
    }
    proof {
        if raw.len() > 0 {
            assert(raw.last() == cs@[end - 1]);
        }
        assert(without_carriage_return(raw) =~= output@.subrange(start as int, stop as int));
    }
    if start < stop {
        let line: String = output.substring_char(start, stop).to_owned();
        let ghost before = strings_view(paths@);
        paths.push(line);
        assert(strings_view(paths@) =~= before.push(line@));
    }
}

/// The lines of a listing that name a path.
pub fn paths_in_listing(output: &str) -> (paths: Vec<String>)
    ensures
        strings_view(paths@) == listed_paths(output@),
{
    let cs = chars_of(output);
    let n: usize = cs.len();
    let mut paths: Vec<String> = Vec::new();
    let mut start: usize = 0;
    let mut i: usize = 0;
    assert(output@.take(0) =~= Seq::<char>::empty());
    assert(strings_view(paths@) =~= Seq::<Seq<char>>::empty());
    while i < n
        invariant
            start <= i <= n,
            n == cs.len(),
            cs@ == output@,
            last_line_feed(output@.take(i as int)) == start - 1,
            strings_view(paths@) == (if start > 0 {
                listed_paths(output@.take(start - 1))
            } else {
                Seq::empty()
            }),
        decreases n - i,
    {
        let ghost prefix = output@.take(i as int);
        let ghost next = output@.take(i + 1);
        assert(next.drop_last() =~= prefix);
        assert(next.last() == cs@[i as int]);
        if cs[i] == '\n' {
            proof {
                lemma_last_line_feed(prefix);
                assert(prefix.skip(start as int) =~= output@.subrange(start as int, i as int));
                if start > 0 {
                    assert(prefix.take(start - 1) =~= output@.take(start - 1));
                }
            }
            push_line(&mut paths, output, &cs, start, i);
            assert(strings_view(paths@) =~= listed_paths(prefix));
            start = i + 1;
        }
        i = i + 1;
    }
    proof {
        assert(output@.take(n as int) =~= output@);
        lemma_last_line_feed(output@);
        assert(output@.skip(start as int) =~= output@.subrange(start as int, n as int));
    }
    push_line(&mut paths, output, &cs, start, n);
    assert(strings_view(paths@) =~= listed_paths(output@));
    paths
}

/// A text that is held, from a text that is borrowed.
fn held(s: &str) -> (out: String)
    ensures
        out@ == s@,
{
    s.to_owned()
}

impl GitCommitCandidate {
    /// What the file that names the paths of this commit holds: the paths,
    /// one on each line.
    pub fn pathspec(&self) -> (content: String)
        ensures
            content@ == joined(strings_view(self.file_paths@), "\n"@),
    {
        join_lines(&self.file_paths, "\n")
    }
}

impl GitHelper {
    /// How many commits are split.
    pub closed spec fn depth(&self) -> u8 {
        self.depth
    }

    /// The branch that the commits are on.
    pub closed spec fn current_branch(&self) -> Seq<char> {
        self.curr_branch_name@
    }

    /// The temporary branch, once it was created.
    pub closed spec fn temp_branch(&self) -> Option<Seq<char>> {
        match self.temp_branch_name {
            Some(name) => Some(name@),
            None => None,
        }
    }

    /// The command that prints the name of the branch that is checked out.
    pub fn current_branch_command() -> (args: Vec<String>)
        ensures
            strings_view(args@) == seq!["branch"@, "--show-current"@],
    {
        let mut args: Vec<String> = Vec::new();
        args.push(held("branch"));
        args.push(held("--show-current"));
        assert(strings_view(args@) =~= seq!["branch"@, "--show-current"@]);
        args
    }

    /// A helper for splitting the last `depth` commits of the branch whose
    /// name `branch_output` holds as `current_branch_command` printed it.
    pub fn new(depth: u8, branch_output: &str) -> (helper: GitHelper)
        ensures
            helper.depth() == depth,
            helper.current_branch() == branch_name_in(branch_output@),
            helper.temp_branch() is None,
    {
        let without_crlf = trim_end(branch_output, "\r\n");
        let name = trim_end(without_crlf.as_str(), "\n");
        GitHelper { depth, curr_branch_name: name, temp_branch_name: None }
    }

    /// The revision that the commits to split follow.
    fn start(&self) -> (rev: String)
        ensures
            rev@ == start_revision(self.depth()),
    {
        let mut rev = held("HEAD~");
        let number = decimal_text(self.depth);
        rev.append(number.as_str());
        rev
    }

    /// The command that lists the files that the commits to split touch.
    pub fn list_command(&self) -> (args: Vec<String>)
        ensures
            strings_view(args@) == seq![
                "diff"@,
                "--name-only"@,
                start_revision(self.depth()),
                "HEAD"@,
            ],
    {
        let mut args: Vec<String> = Vec::new();
        args.push(held("diff"));
        args.push(held("--name-only"));
        args.push(self.start());
        args.push(held("HEAD"));
        assert(strings_view(args@) =~= seq![
            "diff"@,
            "--name-only"@,
            start_revision(self.depth()),
            "HEAD"@,
        ]);
        args
    }

    /// The files that the commits to split touch, from what `list_command`
    /// printed. That there is none is an error.
    pub fn list(&self, output: &str) -> (r: Result<Vec<String>, GitCommandError>)
        ensures
            r is Ok <==> listed_paths(output@).len() > 0,
            r is Ok ==> strings_view(r->Ok_0@) == listed_paths(output@),
            r is Err ==> r->Err_0 == (GitCommandError::EmptyListError { level: self.depth() }),
    {
        let diff_list = paths_in_listing(output);
        if diff_list.len() != 0 {
            Ok(diff_list)
        } else {
            Err(GitCommandError::EmptyListError { level: self.depth })
        }
    }

    /// The command that creates the temporary branch `name` and checks it
    /// out.
    pub fn checkout_command(name: &str) -> (args: Vec<String>)
        ensures
            strings_view(args@) == seq!["checkout"@, "-b"@, name@],
    {
        let mut args: Vec<String> = Vec::new();
        args.push(held("checkout"));
        args.push(held("-b"));
        args.push(held(name));
        assert(strings_view(args@) =~= seq!["checkout"@, "-b"@, name@]);
        args
    }

    /// The name of the temporary branch with the random part `key`.
    pub fn temp_branch_name_for(key: &str) -> (name: String)
        ensures
            name@ == temp_branch_of(key@),
    {
        let mut name = held("tmp-branch/");
        name.append(key);
        name
    }

    /// Picks the name of a temporary branch, with a random part of sixteen
    /// letters and digits, and gives the command that creates the branch.
    /// The branch counts as created once `temp_branch_created` is told so.
    pub fn checkout_to_temp_branch(&self) -> (plan: (String, Vec<String>))
        ensures
            exists|key: Seq<char>| is_branch_key(key) && plan.0@ == #[trigger] temp_branch_of(key),
            strings_view(plan.1@) == seq!["checkout"@, "-b"@, plan.0@],
    {
        let key = random_key();
        let name = GitHelper::temp_branch_name_for(key.as_str());
        let args = GitHelper::checkout_command(name.as_str());
        assert(is_branch_key(key@) && name@ == temp_branch_of(key@));
        (name, args)
    }

    /// Records that the temporary branch `name` was created.
    pub fn temp_branch_created(&mut self, name: String)
        ensures
            final(self).depth() == old(self).depth(),
            final(self).current_branch() == old(self).current_branch(),
            final(self).temp_branch() == Some(name@),
    {
        self.temp_branch_name = Some(name);
    }

    /// The commands that go back to the branch the session started on and
    /// delete the temporary branch, in this order. Before a temporary branch
    /// was created there is nothing to restore, and the call is an error.
    pub fn restore_branch(&self) -> (r: Result<Vec<Vec<String>>, GitCommandError>)
        ensures
            r is Ok <==> self.temp_branch() is Some,
            r is Err ==> r->Err_0 == GitCommandError::InvalidFunctionCallError,
            r is Ok ==> {
                &&& r->Ok_0@.len() == 2
                &&& strings_view(r->Ok_0@[0]@) == seq!["checkout"@, "-B"@, self.current_branch()]
                &&& strings_view(r->Ok_0@[1]@) == seq!["branch"@, "-d"@, self.temp_branch()->0]
            },
    {
        match &self.temp_branch_name {
            Some(name) => {
                let mut checkout: Vec<String> = Vec::new();
                checkout.push(held("checkout"));
                checkout.push(held("-B"));
                checkout.push(self.curr_branch_name.clone());
                let mut delete: Vec<String> = Vec::new();
                delete.push(held("branch"));
                delete.push(held("-d"));
                delete.push(name.clone());
                assert(strings_view(checkout@) =~= seq![
                    "checkout"@,
                    "-B"@,
                    self.current_branch(),
                ]);
                assert(strings_view(delete@) =~= seq!["branch"@, "-d"@, name@]);
                let mut commands: Vec<Vec<String>> = Vec::new();
                commands.push(checkout);
                commands.push(delete);
                Ok(commands)
            },
            None => Err(GitCommandError::InvalidFunctionCallError),
        }
    }

    /// The command that takes the commits to split back and keeps their
    /// changes.
    pub fn reset(&self) -> (args: Vec<String>)
        ensures
            strings_view(args@) == seq!["reset"@, "--soft"@, start_revision(self.depth())],
    {
        let mut args: Vec<String> = Vec::new();
        args.push(held("reset"));
        args.push(held("--soft"));
        args.push(self.start());
        assert(strings_view(args@) =~= seq![
            "reset"@,
            "--soft"@,
            start_revision(self.depth()),
        ]);
        args
    }

    /// The command that makes one commit with the message of `commit` from
    /// the paths that the file `spec_filepath` names.
    pub fn commit(&self, commit: &GitCommitCandidate, spec_filepath: &str) -> (args: Vec<String>)
        ensures
            strings_view(args@) == seq![
                "commit"@,
                "-m"@,
                commit.msg@,
                "--pathspec-from-file"@,
                spec_filepath@,
            ],
    {
        let mut args: Vec<String> = Vec::new();
        args.push(held("commit"));
        args.push(held("-m"));
        args.push(commit.msg.clone());
        args.push(held("--pathspec-from-file"));
        args.push(held(spec_filepath));
        assert(strings_view(args@) =~= seq![
            "commit"@,
            "-m"@,
            commit.msg@,
            "--pathspec-from-file"@,
            spec_filepath@,
        ]);
        args
    }
}

} // verus!
