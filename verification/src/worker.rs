//! The protocol of a bash process that runs one build script after the other.
//!
//! A worker reads the path of a script and of two files for its output, runs the script in a fresh
//! subshell, and reports `__DONE__ <exit code>`. Before that, the build may signal
//! `__META_READY__ <directory>` on the worker's standard output, which subshells inherit as file
//! descriptor 3.
use crate::rustc_wrap;
use crate::text;
use vstd::prelude::*;

verus! {

/// The result of a build that a worker ran.
pub struct WorkerBuildResult {
    pub exit_code: i32,
    pub stdout: String,
    pub stderr: String,
}

/// What a worker runs: it waits for scripts. The locale is that of the Nix sandbox, and nothing of
/// stdenv is sourced here, since subshells would inherit what one unit decided.
pub const INIT: &'static str = "
export LC_ALL=C
unset LANG LANGUAGE
export NIX_BUILD_TOP=/tmp/nib-worker-$$
export TMPDIR=/tmp/nib-worker-$$
mkdir -p \"$NIX_BUILD_TOP\"

# Save stdout as fd 3 for mid-build signaling.
# Subshells inherit fd 3 so build tools can write
# __META_READY__ messages directly to the Rust reader.
exec 3>&1

echo \"__READY__\"

# One path per line so spaces in $XDG_CACHE_HOME don't break field splitting.
while IFS= read -r script_path; do
    IFS= read -r stdout_file
    IFS= read -r stderr_file
    ( source \"$script_path\" ) > \"$stdout_file\" 2> \"$stderr_file\" 3>&3
    echo \"__DONE__ $?\"
done
";

/// Whether a worker can be started, given whether its stdenv has a `setup`.
pub fn check_stdenv(stdenv_path: &str, has_setup: bool) -> (r: Result<(), String>)
    ensures
        match r {
            Ok(_) => has_setup,
            Err(e) => !has_setup && e@ == "stdenv missing at "@ + stdenv_path@,
        },
{
    if has_setup {
        Ok(())
    } else {
        let mut e = "stdenv missing at ".to_owned();
        e.append(stdenv_path);
        Err(e)
    }
}

/// Whether the first line of a worker says that it is ready.
pub fn check_ready(line: &str) -> (r: Result<(), String>)
    ensures
        match r {
            Ok(_) => text::occurs(line@, "__READY__"@),
            Err(e) => !text::occurs(line@, "__READY__"@) && e@
                == "worker didn't signal ready, got: "@ + line@,
        },
{
    if text::contains(line, "__READY__") {
        Ok(())
    } else {
        let mut e = "worker didn't signal ready, got: ".to_owned();
        e.append(line);
        Err(e)
    }
}

/// The number of cores that builds may use: an inherited one, or as many as there are.
pub fn build_cores(inherited: Option<&str>, available: usize) -> (r: String)
    ensures
        r@ == match inherited {
            Some(n) => n@,
            None => text::decimal(available as nat),
        },
{
    match inherited {
        Some(n) => n.to_owned(),
        None => text::usize_text(available),
    }
}

/// The request to run a script: one path per line.
pub fn request(script_path: &str, stdout_file: &str, stderr_file: &str) -> (r: String)
    ensures
        r@ == script_path@ + "\n"@ + stdout_file@ + "\n"@ + stderr_file@ + "\n"@,
{
    let mut s = script_path.to_owned();
    s.append("\n");
    s.append(stdout_file);
    s.append("\n");
    s.append(stderr_file);
    s.append("\n");
    s
}

/// The integer that a text stands for: digits behind an optional sign.
pub open spec fn int_value(s: Seq<char>) -> Option<int> {
    if s.len() > 0 && s[0] == '-' {
        match text::digits_value(s.skip(1)) {
            Some(n) => Some(-n),
            None => None,
        }
    } else if s.len() > 0 && s[0] == '+' {
        match text::digits_value(s.skip(1)) {
            Some(n) => Some(n as int),
            None => None,
        }
    } else {
        match text::digits_value(s) {
            Some(n) => Some(n as int),
            None => None,
        }
    }
}

/// The exit code that a text stands for, or -1 where it is no integer of 32 bits.
pub open spec fn code_of(s: Seq<char>) -> int {
    match int_value(text::trimmed(s)) {
        Some(n) => if i32::MIN <= n <= i32::MAX {
            n
        } else {
            -1
        },
        None => -1,
    }
}

fn read_code(s: &str) -> (r: i32)
    ensures
        r == code_of(s@),
{
    let t = text::trim(s);
    let cs = text::chars_of(t.as_str());
    if cs.len() > 0 && cs[0] == '-' {
        match text::read_digits(cs.as_slice(), 1, 0x8000_0000) {
            Some(n) => (0 - n as i64) as i32,
            None => -1,
        }
    } else if cs.len() > 0 && cs[0] == '+' {
        match text::read_digits(cs.as_slice(), 1, 0x8000_0000) {
            Some(n) => if n <= 0x7FFF_FFFF {
                n as i32
            } else {
                -1
            },
            None => -1,
        }
    } else {
        assert(cs@.skip(0) =~= cs@);
        match text::read_digits(cs.as_slice(), 0, 0x8000_0000) {
            Some(n) => if n <= 0x7FFF_FFFF {
                n as i32
            } else {
                -1
            },
            None => -1,
        }
    }
}

/// What a line of a worker says.
pub enum WorkerEvent {
    /// Early metadata is in this directory.
    MetaReady(String),
    /// The script is done, with this exit code.
    Done(i32),
    /// The worker has closed its output.
    Closed,
    /// Nothing.
    Other,
}

/// What a [`WorkerEvent`] holds.
pub enum EventView {
    MetaReady(Seq<char>),
    Done(int),
    Closed,
    Other,
}

impl DeepView for WorkerEvent {
    type V = EventView;

    open spec fn deep_view(&self) -> EventView {
        match self {
            WorkerEvent::MetaReady(d) => EventView::MetaReady(d@),
            WorkerEvent::Done(c) => EventView::Done(*c as int),
            WorkerEvent::Closed => EventView::Closed,
            WorkerEvent::Other => EventView::Other,
        }
    }
}

/// What a line of a worker says, given whether metadata was signalled before. A signal counts
/// once, and stray output does not count. An empty line is the end of the output.
pub open spec fn said(line: Seq<char>, signalled: bool) -> EventView {
    match text::without_prefix(line, "__META_READY__ "@) {
        Some(dir) => if signalled {
            EventView::Other
        } else {
            EventView::MetaReady(text::trimmed(dir))
        },
        None => match text::without_prefix(line, "__DONE__ "@) {
            Some(code) => EventView::Done(code_of(code)),
            None => if line.len() == 0 {
                EventView::Closed
            } else {
                EventView::Other
            },
        },
    }
}

/// A build that a worker runs, as far as it has been followed.
pub struct WorkerRun {
    pub signalled: bool,
}

impl WorkerRun {
    /// The start of a build.
    pub fn new() -> (r: Self)
        ensures
            !r.signalled,
    {
        WorkerRun { signalled: false }
    }

    /// Takes in a line, with its line end, that the worker wrote.
    pub fn read_line(&mut self, line: &str) -> (r: WorkerEvent)
        ensures
            r.deep_view() == said(line@, old(self).signalled),
            final(self).signalled == (old(self).signalled || r is MetaReady),
    {
        match text::strip_prefix(line, "__META_READY__ ") {
            Some(dir) => {
                if self.signalled {
                    WorkerEvent::Other
                } else {
                    self.signalled = true;
                    WorkerEvent::MetaReady(text::trim(dir.as_str()))
                }
            },
            None => match text::strip_prefix(line, "__DONE__ ") {
                Some(code) => WorkerEvent::Done(read_code(code.as_str())),
                None => {
                    if text::str_eq(line, "") {
                        proof {
                            reveal_strlit("");
                        }
                        WorkerEvent::Closed
                    } else {
                        proof {
                            reveal_strlit("");
                            assert(line@.len() == 0 ==> line@ =~= ""@);
                        }
                        WorkerEvent::Other
                    }
                },
            },
        }
    }
}

/// The trimmed text of one that starts and ends with other characters than white space is itself,
/// also with a line end behind it.
proof fn trimmed_line(s: Seq<char>)
    requires
        s.len() > 0,
        !text::white_space(s[0]),
        !text::white_space(s.last()),
    ensures
        text::trimmed(s + "\n"@) == s,
{
    reveal_strlit("\n");
    let t = s + "\n"@;
    assert(t[0] == s[0]);
    assert(text::lead(t, true) == 0);
    assert(t.skip(0) =~= t);
    assert(t.drop_last() =~= s);
    assert(text::trail(s) == 0);
    assert(text::trail(t) == 1);
    assert(t.take(t.len() - 1) =~= s);
}

/// The report of every exit code is read as that code.
pub proof fn done_reads_back(code: i32, signalled: bool)
    ensures
        said("__DONE__ "@ + text::signed_decimal(code as int) + "\n"@, signalled)
            == EventView::Done(code as int),
{
    reveal_strlit("__DONE__ ");
    reveal_strlit("__META_READY__ ");
    let s = text::signed_decimal(code as int);
    let line = "__DONE__ "@ + s + "\n"@;
    let n = if code < 0 {
        (-code) as nat
    } else {
        code as nat
    };
    text::decimal_value(n);
    if code < 0 {
        assert(s.skip(1) =~= text::decimal(n));
        assert(s.last() == text::decimal(n).last());
    }
    trimmed_line(s);
    assert(line[2] == 'D');
    assert(!("__META_READY__ "@.is_prefix_of(line))) by {
        if "__META_READY__ "@.is_prefix_of(line) {
            assert("__META_READY__ "@[2] == line.take("__META_READY__ "@.len() as int)[2]);
        }
    }
    assert("__DONE__ "@ =~= line.take(9));
    assert(line.skip(9) =~= s + "\n"@);
}

/// The signal that the compiler's shim writes is read as the directory it names.
pub proof fn signal_reads_back(dir: Seq<char>)
    requires
        dir.len() > 0,
        !text::white_space(dir[0]),
        !text::white_space(dir.last()),
    ensures
        said(rustc_wrap::meta_ready(dir), false) == EventView::MetaReady(dir),
        said(rustc_wrap::meta_ready(dir), true) == EventView::Other,
{
    let p = "__META_READY__ "@;
    let line = rustc_wrap::meta_ready(dir);
    trimmed_line(dir);
    assert(p =~= line.take(p.len() as int));
    assert(line.skip(p.len() as int) =~= dir + "\n"@);
}

/// A request names the script, the file for its output and that for its errors, one per line.
pub proof fn requests_read_back(script: &str, out: &str, err: &str, r: String)
    requires
        call_ensures(request, (script, out, err), r),
        !script@.contains('\n'),
        !out@.contains('\n'),
        !err@.contains('\n'),
        script@.len() > 0 ==> script@.last() != '\r',
        out@.len() > 0 ==> out@.last() != '\r',
        err@.len() > 0 ==> err@.last() != '\r',
    ensures
        text::lines_of(r@) == seq![script@, out@, err@],
{
    reveal_strlit("\n");
    let none = Seq::<char>::empty();
    let f = seq!['\n'];
    assert("\n"@ =~= f);
    text::lines_are_between_feeds(err@, none);
    text::lines_are_between_feeds(out@, err@ + f + none);
    text::lines_are_between_feeds(script@, out@ + f + (err@ + f + none));
    assert(r@ =~= script@ + f + (out@ + f + (err@ + f + none)));
    assert(text::lines_of(r@) =~= seq![script@, out@, err@]);
}

/// A worker is ready exactly if its first line says so.
pub proof fn ready_workers_say_so(line: &str, r: Result<(), String>)
    requires
        call_ensures(check_ready, (line,), r),
    ensures
        r is Ok <==> text::occurs(line@, "__READY__"@),
{
}

/// An inherited number of cores is kept; else builds use all that there are.
pub proof fn inherited_cores_are_kept(inherited: Option<&str>, available: usize, r: String)
    requires
        call_ensures(build_cores, (inherited, available), r),
    ensures
        inherited matches Some(n) ==> r@ == n@,
        inherited is None ==> text::digits_value(r@) == Some(available as nat),
{
    text::decimal_value(available as nat);
}

/// What is no report and no signal is no event, the end of the stream is told from an empty line,
/// and a report without an exit code counts as a failure.
pub proof fn other_lines_are_no_events(line: Seq<char>, signalled: bool)
    ensures
        line.len() == 0 ==> said(line, signalled) == EventView::Closed,
        line.len() > 0 && !"__META_READY__ "@.is_prefix_of(line) && !"__DONE__ "@.is_prefix_of(line)
            ==> said(line, signalled) == EventView::Other,
        !"__META_READY__ "@.is_prefix_of(line) && "__DONE__ "@.is_prefix_of(line) && int_value(
            text::trimmed(line.skip("__DONE__ "@.len() as int)),
        ) is None ==> said(line, signalled) == EventView::Done(-1),
{
    reveal_strlit("__META_READY__ ");
    reveal_strlit("__DONE__ ");
    if line.len() == 0 {
        assert(!"__META_READY__ "@.is_prefix_of(line));
        assert(!"__DONE__ "@.is_prefix_of(line));
    }
}

/// A worker says that it is ready, reads the path of a script and where its two outputs go, one path a
/// line, runs the script in a shell of its own, and says how it ended.
pub proof fn workers_wait_for_scripts()
    ensures
        text::occurs(INIT@, "export LC_ALL=C\n"@),
        text::occurs(INIT@, "exec 3>&1\n"@),
        text::occurs(INIT@, "echo \"__READY__\"\n"@),
        text::occurs(INIT@, "while IFS= read -r script_path; do\n    IFS= read -r stdout_file\n    IFS= read -r stderr_file\n"@),
        text::occurs(INIT@, "    ( source \"$script_path\" ) > \"$stdout_file\" 2> \"$stderr_file\" 3>&3\n    echo \"__DONE__ $?\"\ndone\n"@),
{
    reveal_strlit("
export LC_ALL=C
unset LANG LANGUAGE
export NIX_BUILD_TOP=/tmp/nib-worker-$$
export TMPDIR=/tmp/nib-worker-$$
mkdir -p \"$NIX_BUILD_TOP\"

# Save stdout as fd 3 for mid-build signaling.
# Subshells inherit fd 3 so build tools can write
# __META_READY__ messages directly to the Rust reader.
exec 3>&1

echo \"__READY__\"

# One path per line so spaces in $XDG_CACHE_HOME don't break field splitting.
while IFS= read -r script_path; do
    IFS= read -r stdout_file
    IFS= read -r stderr_file
    ( source \"$script_path\" ) > \"$stdout_file\" 2> \"$stderr_file\" 3>&3
    echo \"__DONE__ $?\"
done
");
    reveal_strlit("export LC_ALL=C\n");
    assert(INIT@.subrange(1, 17) =~= "export LC_ALL=C\n"@);
    assert(text::has_at(INIT@, 1, "export LC_ALL=C\n"@));
    reveal_strlit("exec 3>&1\n");
    assert(INIT@.subrange(289, 299) =~= "exec 3>&1\n"@);
    assert(text::has_at(INIT@, 289, "exec 3>&1\n"@));
    reveal_strlit("echo \"__READY__\"\n");
    assert(INIT@.subrange(300, 317) =~= "echo \"__READY__\"\n"@);
    assert(text::has_at(INIT@, 300, "echo \"__READY__\"\n"@));
    reveal_strlit("while IFS= read -r script_path; do\n    IFS= read -r stdout_file\n    IFS= read -r stderr_file\n");
    assert(INIT@.subrange(396, 489) =~= "while IFS= read -r script_path; do\n    IFS= read -r stdout_file\n    IFS= read -r stderr_file\n"@);
    assert(text::has_at(INIT@, 396, "while IFS= read -r script_path; do\n    IFS= read -r stdout_file\n    IFS= read -r stderr_file\n"@));
    reveal_strlit("    ( source \"$script_path\" ) > \"$stdout_file\" 2> \"$stderr_file\" 3>&3\n    echo \"__DONE__ $?\"\ndone\n");
    assert(INIT@.subrange(489, 587) =~= "    ( source \"$script_path\" ) > \"$stdout_file\" 2> \"$stderr_file\" 3>&3\n    echo \"__DONE__ $?\"\ndone\n"@);
    assert(text::has_at(INIT@, 489, "    ( source \"$script_path\" ) > \"$stdout_file\" 2> \"$stderr_file\" 3>&3\n    echo \"__DONE__ $?\"\ndone\n"@));
}

/// A worker that says how a script ended is taken at its word: an exit code in decimal is that code,
/// and what is no number of 32 bits counts as a failure.
pub proof fn exit_codes_are_read(t: Seq<char>, n: nat, signalled: bool)
    ensures
        ({
            let e = said("__DONE__ "@ + t, signalled);
            let w = text::trimmed(t);
            &&& w == text::decimal(n) && n <= i32::MAX ==> e == EventView::Done(n as int)
            &&& w == seq!['-'] + text::decimal(n) && -n >= i32::MIN ==> e == EventView::Done(-n)
            &&& w == text::decimal(n) && n > i32::MAX ==> e == EventView::Done(-1)
            &&& w.len() == 0 ==> e == EventView::Done(-1)
        }),
{
    reveal_strlit("__DONE__ ");
    reveal_strlit("__META_READY__ ");
    let l = "__DONE__ "@ + t;
    let w = text::trimmed(t);
    assert(l[2] == 'D');
    if "__META_READY__ "@.is_prefix_of(l) {
        assert(l.subrange(0, 15)[2] == "__META_READY__ "@[2]);
    }
    assert(l.subrange(0, 9) =~= "__DONE__ "@);
    assert(l.skip(9) =~= t);
    assert(text::without_prefix(l, "__DONE__ "@) == Some(t));
    text::decimal_value(n);
    assert('0' <= text::decimal(n)[0] <= '9');
    assert((seq!['-'] + text::decimal(n)).skip(1) =~= text::decimal(n));
}

} // verus!
