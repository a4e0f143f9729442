//! What the terminal shows while units are built: a line that is rewritten in place, below the
//! units that are done.
//!
//! The methods give the text to write; on anything but a terminal there is no progress line.
use crate::text;
use vstd::prelude::*;

verus! {

pub const GREEN: &'static str = "\x1b[32m";

pub const BOLD_GREEN: &'static str = "\x1b[1;32m";

pub const YELLOW: &'static str = "\x1b[33m";

pub const RED: &'static str = "\x1b[1;31m";

pub const BOLD: &'static str = "\x1b[1m";

pub const DIM: &'static str = "\x1b[2m";

pub const RESET: &'static str = "\x1b[0m";

/// How far a run is.
pub struct Progress {
    pub total: usize,
    pub completed: usize,
    pub active: Vec<String>,
    pub is_tty: bool,
    /// How many characters the progress line shows.
    pub last_line_len: usize,
}

/// What a [`Progress`] holds.
#[verifier::ext_equal]
pub struct ProgressView {
    pub total: nat,
    pub completed: nat,
    pub active: Seq<Seq<char>>,
    pub is_tty: bool,
    pub last_line_len: nat,
}

impl View for Progress {
    type V = ProgressView;

    open spec fn view(&self) -> ProgressView {
        ProgressView {
            total: self.total as nat,
            completed: self.completed as nat,
            active: self.active.deep_view(),
            is_tty: self.is_tty,
            last_line_len: self.last_line_len as nat,
        }
    }
}

/// How many characters a text shows, and whether it ends inside an escape sequence. Such a sequence
/// goes from an escape character to an `m`.
pub open spec fn shown(s: Seq<char>) -> (nat, bool)
    decreases s.len(),
{
    if s.len() == 0 {
        (0, false)
    } else {
        let (n, inside) = shown(s.drop_last());
        let c = s.last();
        if c == '\x1b' {
            (n, true)
        } else if inside {
            (n, c != 'm')
        } else {
            (n + 1, false)
        }
    }
}

/// Counts the characters that a text shows.
pub fn strip_ansi_len(s: &str) -> (r: usize)
    ensures
        r == shown(s@).0,
{
    let cs = text::chars_of(s);
    let mut n: usize = 0;
    let mut inside = false;
    assert(cs@.take(0) =~= Seq::empty());
    for i in 0..cs.len()
        invariant
            n <= i,
            shown(cs@.take(i as int)) == (n as nat, inside),
    {
        assert(cs@.take(i + 1).drop_last() =~= cs@.take(i as int));
        if cs[i] == '\x1b' {
            inside = true;
        } else if inside {
            if cs[i] == 'm' {
                inside = false;
            }
        } else {
            n += 1;
        }
    }
    assert(cs@.take(cs@.len() as int) =~= cs@);
    n
}

/// The progress line: how many of all units are done, and which one is being built.
pub open spec fn line_of(p: ProgressView) -> Seq<char> {
    let head = "  "@ + DIM@ + "["@ + text::decimal(p.completed) + "/"@ + text::decimal(p.total)
        + "]"@ + RESET@;
    if p.active.len() == 0 {
        head + " waiting..."@
    } else {
        let building = head + " "@ + YELLOW@ + "Building"@ + RESET@ + " "@ + p.active.last();
        if p.active.len() == 1 {
            building
        } else {
            building + " "@ + DIM@ + "("@ + text::decimal(p.active.len()) + " active)"@ + RESET@
        }
    }
}

/// The text that shows the progress line.
pub open spec fn rendered(p: ProgressView) -> Seq<char> {
    if p.is_tty {
        "\r"@ + line_of(p)
    } else {
        Seq::empty()
    }
}

/// The progress once its line is shown.
pub open spec fn with_line(p: ProgressView) -> ProgressView {
    if p.is_tty {
        ProgressView { last_line_len: shown(line_of(p)).0, ..p }
    } else {
        p
    }
}

/// Some spaces.
pub open spec fn spaces(n: nat) -> Seq<char> {
    Seq::new(n, |i: int| ' ')
}

/// The text that clears the progress line.
pub open spec fn cleared(p: ProgressView) -> Seq<char> {
    if p.is_tty {
        "\r"@ + spaces(if p.last_line_len < 200 { p.last_line_len } else { 200 }) + "\r"@
    } else {
        Seq::empty()
    }
}

/// The units without those of a name.
pub open spec fn without(active: Seq<Seq<char>>, name: Seq<char>) -> Seq<Seq<char>>
    decreases active.len(),
{
    if active.len() == 0 {
        Seq::empty()
    } else if active.last() == name {
        without(active.drop_last(), name)
    } else {
        without(active.drop_last(), name).push(active.last())
    }
}

/// The progress once a unit is done.
pub open spec fn one_done(p: ProgressView, name: Seq<char>) -> ProgressView {
    ProgressView { completed: p.completed + 1, active: without(p.active, name), ..p }
}

/// The last ten lines of the output of a failed unit: of its errors, if there are any.
pub open spec fn last_lines(stdout: Seq<char>, stderr: Seq<char>) -> Seq<Seq<char>> {
    let lines = text::lines_of(if stderr.len() > 0 { stderr } else { stdout });
    if lines.len() > 10 {
        lines.skip(lines.len() - 10)
    } else {
        lines
    }
}

/// Lines behind a bar.
pub open spec fn barred(lines: Seq<Seq<char>>) -> Seq<char>
    decreases lines.len(),
{
    if lines.len() == 0 {
        Seq::empty()
    } else {
        barred(lines.drop_last()) + "    "@ + DIM@ + "\u{2502}"@ + RESET@ + " "@ + lines.last()
            + "\n"@
    }
}

/// The line about a unit that was built.
pub open spec fn built_line(name: Seq<char>, secs: Seq<char>) -> Seq<char> {
    "  "@ + BOLD_GREEN@ + "Built"@ + RESET@ + " "@ + name + " ("@ + secs + "s)\n"@
}

/// The lines about a unit that failed.
pub open spec fn failed_lines(name: Seq<char>, stdout: Seq<char>, stderr: Seq<char>) -> Seq<char> {
    "  "@ + RED@ + "FAILED"@ + RESET@ + " "@ + name + "\n"@ + barred(last_lines(stdout, stderr))
}

/// The last line of a run.
pub open spec fn summary_line(built: nat, cached: nat, failed: nat, secs: Seq<char>) -> Seq<char> {
    "\n"@ + BOLD@ + "  "@ + GREEN@ + text::decimal(built) + " built"@ + RESET@ + BOLD@ + ", "@
        + text::decimal(cached) + " cached"@ + (if failed > 0 {
        ", "@ + RED@ + text::decimal(failed) + " failed"@ + RESET@ + BOLD@
    } else {
        Seq::empty()
    }) + " in "@ + secs + "s"@ + RESET@ + "\n"@
}

impl Progress {
    /// A run over units of which some are cached.
    pub fn new(to_build: usize, cached: usize, is_tty: bool) -> (r: Self)
        requires
            to_build + cached <= usize::MAX,
        ensures
            r@ == (ProgressView {
                total: (to_build + cached) as nat,
                completed: cached as nat,
                active: Seq::empty(),
                is_tty,
                last_line_len: 0,
            }),
    {
        let r = Progress {
            total: to_build + cached,
            completed: cached,
            active: Vec::new(),
            is_tty,
            last_line_len: 0,
        };
        assert(r@.active =~= Seq::<Seq<char>>::empty());
        r
    }

    fn line(&self) -> (r: String)
        ensures
            r@ == line_of(self@),
    {
        let mut s = "  ".to_owned();
        s.append(DIM);
        s.append("[");
        s.append(text::usize_text(self.completed).as_str());
        s.append("/");
        s.append(text::usize_text(self.total).as_str());
        s.append("]");
        s.append(RESET);
        let n: usize = self.active.len();
        if n == 0 {
            s.append(" waiting...");
            return s;
        }
        s.append(" ");
        s.append(YELLOW);
        s.append("Building");
        s.append(RESET);
        s.append(" ");
        s.append(self.active[n - 1].as_str());
        assert(self@.active.last() == self.active@[n - 1]@);
        if n > 1 {
            s.append(" ");
            s.append(DIM);
            s.append("(");
            s.append(text::usize_text(n).as_str());
            s.append(" active)");
            s.append(RESET);
        }
        s
    }

    fn render_progress(&mut self) -> (r: String)
        ensures
            r@ == rendered(old(self)@),
            final(self)@ == with_line(old(self)@),
    {
        if !self.is_tty {
            return String::new();
        }
        let line = self.line();
        self.last_line_len = strip_ansi_len(line.as_str());
        let mut s = "\r".to_owned();
        s.append(line.as_str());
        s
    }

    fn clear_line(&mut self) -> (r: String)
        ensures
            r@ == cleared(old(self)@),
            final(self)@ == (ProgressView {
                last_line_len: if old(self)@.is_tty {
                    0
                } else {
                    old(self)@.last_line_len
                },
                ..old(self)@
            }),
    {
        if !self.is_tty {
            return String::new();
        }
        let n: usize = if self.last_line_len < 200 {
            self.last_line_len
        } else {
            200
        };
        let mut s = "\r".to_owned();
        let ghost start = s@;
        assert(start + spaces(0) =~= start);
        for i in 0..n
            invariant
                s@ == start + spaces(i as nat),
        {
            s.push(' ');
            assert(s@ =~= start + spaces((i + 1) as nat));
        }
        s.append("\r");
        self.last_line_len = 0;
        s
    }

    fn retain_others(&mut self, name: &str)
        ensures
            final(self)@ == (ProgressView {
                active: without(old(self)@.active, name@),
                ..old(self)@
            }),
    {
        let mut kept: Vec<String> = Vec::new();
        let ghost all = self.active.deep_view();
        assert(kept.deep_view() =~= without(all.take(0), name@));
        for i in 0..self.active.len()
            invariant
                all == self.active.deep_view(),
                *self == *old(self),
                kept.deep_view() == without(all.take(i as int), name@),
        {
            proof {
                assert(all.take(i + 1).drop_last() =~= all.take(i as int));
                assert(all[i as int] == self.active@[i as int]@);
            }
            if !text::str_eq(self.active[i].as_str(), name) {
                let ghost before = kept.deep_view();
                kept.push(self.active[i].clone());
                assert(kept.deep_view() =~= before.push(all[i as int]));
            }
        }
        assert(all.take(all.len() as int) =~= all);
        self.active = kept;
    }

    /// A unit started.
    pub fn start(&mut self, name: &str) -> (r: String)
        ensures
            ({
                let p = ProgressView { active: old(self)@.active.push(name@), ..old(self)@ };
                &&& r@ == rendered(p)
                &&& final(self)@ == with_line(p)
            }),
    {
        let ghost before = self.active.deep_view();
        self.active.push(name.to_owned());
        assert(self.active.deep_view() =~= before.push(name@));
        self.render_progress()
    }

    /// A unit turned out to be cached after all.
    pub fn late_cached(&mut self) -> (r: String)
        requires
            old(self).completed < usize::MAX,
        ensures
            ({
                let p = ProgressView { completed: old(self)@.completed + 1, ..old(self)@ };
                &&& r@ == rendered(p)
                &&& final(self)@ == with_line(p)
            }),
    {
        self.completed = self.completed + 1;
        self.render_progress()
    }

    /// A unit was built, in a time that is given as text.
    pub fn finish(&mut self, name: &str, secs: &str) -> (r: String)
        requires
            old(self).completed < usize::MAX,
        ensures
            ({
                let p = one_done(old(self)@, name@);
                &&& r@ == cleared(p) + built_line(name@, secs@) + rendered(p)
                &&& final(self)@ == with_line(p)
            }),
    {
        self.retain_others(name);
        self.completed = self.completed + 1;
        let ghost p = self@;
        let mut s = self.clear_line();
        s.append("  ");
        s.append(BOLD_GREEN);
        s.append("Built");
        s.append(RESET);
        s.append(" ");
        s.append(name);
        s.append(" (");
        s.append(secs);
        s.append("s)\n");
        assert(s@ =~= cleared(p) + built_line(name@, secs@));
        s.append(self.render_progress().as_str());
        s
    }

    /// A unit failed, with this output.
    pub fn fail(&mut self, name: &str, stdout: &str, stderr_text: &str) -> (r: String)
        requires
            old(self).completed < usize::MAX,
        ensures
            ({
                let p = one_done(old(self)@, name@);
                &&& r@ == cleared(p) + failed_lines(name@, stdout@, stderr_text@) + rendered(p)
                &&& final(self)@ == with_line(p)
            }),
    {
        self.retain_others(name);
        self.completed = self.completed + 1;
        let ghost p = self@;
        let mut s = self.clear_line();
        s.append("  ");
        s.append(RED);
        s.append("FAILED");
        s.append(RESET);
        s.append(" ");
        s.append(name);
        s.append("\n");
        proof {
            reveal_strlit("");
            assert(stderr_text@.len() == 0 ==> stderr_text@ =~= ""@);
        }
        let combined = if !text::str_eq(stderr_text, "") {
            stderr_text
        } else {
            stdout
        };
        let lines = text::lines(combined);
        let ghost all = text::lines_of(combined@);
        let ghost show = last_lines(stdout@, stderr_text@);
        let n: usize = lines.len();
        let from: usize = if n > 10 {
            n - 10
        } else {
            0
        };
        assert(all.skip(0) =~= all);
        assert(show =~= all.skip(from as int));
        let ghost head = s@;
        assert(head + barred(show.take(0)) =~= head);
        let mut i: usize = from;
        while i < n
            invariant
                n == lines@.len(),
                lines.deep_view() == all,
                from <= i <= n,
                show == all.skip(from as int),
                s@ == head + barred(show.take(i - from)),
            decreases n - i,
        {
            s.append("    ");
            s.append(DIM);
            s.append("\u{2502}");
            s.append(RESET);
            s.append(" ");
            s.append(lines[i].as_str());
            s.append("\n");
            proof {
                let k = i - from;
                assert(show.take(k + 1).drop_last() =~= show.take(k));
                assert(show[k] == lines@[i as int]@);
                assert(s@ =~= head + barred(show.take(k + 1)));
            }
            i += 1;
        }
        assert(show.take(n - from) =~= show);
        assert(s@ =~= cleared(p) + failed_lines(name@, stdout@, stderr_text@));
        s.append(self.render_progress().as_str());
        s
    }

    /// The run is over.
    pub fn summary(&mut self, built: usize, cached: usize, failed: usize, secs: &str) -> (r: String)
        ensures
            r@ == cleared(old(self)@) + summary_line(
                built as nat,
                cached as nat,
                failed as nat,
                secs@,
            ),
            final(self)@ == (ProgressView {
                last_line_len: if old(self)@.is_tty {
                    0
                } else {
                    old(self)@.last_line_len
                },
                ..old(self)@
            }),
    {
        let mut s = self.clear_line();
        let mut t = "\n".to_owned();
        t.append(BOLD);
        t.append("  ");
        t.append(GREEN);
        t.append(text::usize_text(built).as_str());
        t.append(" built");
        t.append(RESET);
        t.append(BOLD);
        t.append(", ");
        t.append(text::usize_text(cached).as_str());
        t.append(" cached");
        if failed > 0 {
            t.append(", ");
            t.append(RED);
            t.append(text::usize_text(failed).as_str());
            t.append(" failed");
            t.append(RESET);
            t.append(BOLD);
        }
        t.append(" in ");
        t.append(secs);
        t.append("s");
        t.append(RESET);
        t.append("\n");
        assert(t@ =~= summary_line(built as nat, cached as nat, failed as nat, secs@));
        s.append(t.as_str());
        s
    }
}

/// A unit that is done is no longer shown as active; all others are, in their order.
pub proof fn done_units_are_not_active(active: Seq<Seq<char>>, name: Seq<char>, n: Seq<char>)
    ensures
        without(active, name).contains(n) <==> active.contains(n) && n != name,
        without(active.push(n), name) == if n == name {
            without(active, name)
        } else {
            without(active, name).push(n)
        },
    decreases active.len(),
{
    assert(active.push(n).drop_last() =~= active);
    if active.len() > 0 {
        let f = active.drop_last();
        done_units_are_not_active(f, name, n);
        assert(active =~= f.push(active.last()));
        crate::graph::pushed(f, active.last(), n);
        crate::graph::pushed(without(f, name), active.last(), n);
    }
}

/// One more unit is done each time, whatever became of it.
pub proof fn done_units_are_counted(p: ProgressView, name: Seq<char>)
    ensures
        one_done(p, name).completed == p.completed + 1,
        one_done(p, name).total == p.total,
        !one_done(p, name).active.contains(name),
{
    done_units_are_not_active(p.active, name, name);
}

/// Of a failed unit the last ten lines are shown, of its errors where there are any, else of its
/// output.
pub proof fn the_last_lines_are_shown(stdout: Seq<char>, stderr: Seq<char>)
    ensures
        ({
            let all = text::lines_of(if stderr.len() > 0 { stderr } else { stdout });
            let r = last_lines(stdout, stderr);
            &&& r.len() == if all.len() > 10 { 10 } else { all.len() }
            &&& r.is_suffix_of(all)
        }),
{
    let all = text::lines_of(if stderr.len() > 0 {
        stderr
    } else {
        stdout
    });
    let r = last_lines(stdout, stderr);
    assert(r =~= all.subrange(all.len() - r.len(), all.len() as int));
}

/// Where there is no terminal nothing is drawn and nothing is wiped; else the line that was drawn is
/// wiped in full, up to two hundred columns.
pub proof fn lines_are_drawn_on_terminals(p: ProgressView)
    ensures
        !p.is_tty ==> rendered(p).len() == 0 && cleared(p).len() == 0 && with_line(p) == p,
        p.is_tty ==> rendered(p).len() > 0 && rendered(p)[0] == '\r' && with_line(p).last_line_len
            == shown(rendered(p).skip(1)).0,
        p.is_tty ==> cleared(p).len() == 2 + if p.last_line_len < 200 {
            p.last_line_len
        } else {
            200
        },
        p.is_tty ==> cleared(p)[0] == '\r' && cleared(p).last() == '\r' && forall|i: int|
            0 < i < cleared(p).len() - 1 ==> #[trigger] cleared(p)[i] == ' ',
{
    reveal_strlit("\r");
    if p.is_tty {
        assert(rendered(p).skip(1) =~= line_of(p));
    }
}

/// A text without escapes takes a column per character; an escape, up to the `m` that ends it, takes
/// none.
pub proof fn escapes_take_no_columns(s: Seq<char>, code: Seq<char>)
    requires
        !shown(s).1,
        forall|i: int| 0 <= i < code.len() ==> #[trigger] code[i] != 'm' && code[i] != '\x1b',
    ensures
        shown(s + seq!['\x1b'] + code + seq!['m']) == (shown(s).0, false),
        forall|c: char| c != '\x1b' ==> #[trigger] shown(s.push(c)) == (shown(s).0 + 1, false),
        shown(Seq::empty()) == (0nat, false),
{
    escape_goes_on(s, code);
    let t = s + seq!['\x1b'] + code;
    assert((t + seq!['m']).drop_last() =~= t);
    assert forall|c: char| c != '\x1b' implies #[trigger] shown(s.push(c)) == (
        shown(s).0 + 1,
        false,
    ) by {
        assert(s.push(c).drop_last() =~= s);
    }
}

proof fn escape_goes_on(s: Seq<char>, code: Seq<char>)
    requires
        forall|i: int| 0 <= i < code.len() ==> #[trigger] code[i] != 'm' && code[i] != '\x1b',
    ensures
        shown(s + seq!['\x1b'] + code) == (shown(s).0, true),
    decreases code.len(),
{
    let t = s + seq!['\x1b'] + code;
    if code.len() == 0 {
        assert(t.drop_last() =~= s);
        assert(t.last() == '\x1b');
    } else {
        let c = code.drop_last();
        assert forall|i: int| 0 <= i < c.len() implies #[trigger] c[i] != 'm' && c[i] != '\x1b' by {
            assert(c[i] == code[i]);
        }
        escape_goes_on(s, c);
        assert(t.drop_last() =~= s + seq!['\x1b'] + c);
        assert(t.last() == code[code.len() - 1]);
    }
}

/// The summary tells how many units were built and how many were cached, and how many failed exactly
/// where some did.
pub proof fn summaries_tell_what_happened(built: nat, cached: nat, failed: nat, secs: Seq<char>)
    ensures
        text::occurs(summary_line(built, cached, failed, secs), text::decimal(built) + " built"@),
        text::occurs(summary_line(built, cached, failed, secs), text::decimal(cached) + " cached"@),
        failed > 0 ==> text::occurs(
            summary_line(built, cached, failed, secs),
            text::decimal(failed) + " failed"@,
        ),
{
    let s = summary_line(built, cached, failed, secs);
    let a = "\n"@ + BOLD@ + "  "@ + GREEN@;
    let x = text::decimal(built) + " built"@;
    let b = RESET@ + BOLD@ + ", "@;
    let y = text::decimal(cached) + " cached"@;
    let c = ", "@ + RED@;
    let z = text::decimal(failed) + " failed"@;
    let d = RESET@ + BOLD@;
    let e = " in "@ + secs + "s"@ + RESET@ + "\n"@;
    if failed > 0 {
        assert(s =~= a + x + (b + y + (c + z + (d + e))));
        found_between(a, x, b + y + (c + z + (d + e)));
        assert(s =~= (a + x + b) + y + (c + z + (d + e)));
        found_between(a + x + b, y, c + z + (d + e));
        assert(s =~= (a + x + b + y + c) + z + (d + e));
        found_between(a + x + b + y + c, z, d + e);
    } else {
        assert(s =~= a + x + (b + y + e));
        found_between(a, x, b + y + e);
        assert(s =~= (a + x + b) + y + e);
        found_between(a + x + b, y, e);
    }
}

proof fn found_between(a: Seq<char>, p: Seq<char>, b: Seq<char>)
    ensures
        text::occurs(a + p + b, p),
{
    let s = a + p + b;
    assert(s.subrange(a.len() as int, (a.len() + p.len()) as int) =~= p);
    assert(text::has_at(s, a.len() as int, p));
}

/// The progress line tells how many of all units are done. It names the unit that was started last,
/// and says how many are being built where there are more.
pub proof fn the_last_started_unit_is_shown(p: ProgressView)
    ensures
        text::occurs(
            line_of(p),
            "["@ + text::decimal(p.completed) + "/"@ + text::decimal(p.total) + "]"@,
        ),
        p.active.len() == 0 ==> " waiting..."@.is_suffix_of(line_of(p)),
        p.active.len() == 1 ==> (RESET@ + " "@ + p.active[0]).is_suffix_of(line_of(p)),
        p.active.len() > 1 ==> text::occurs(
            line_of(p),
            RESET@ + " "@ + p.active[p.active.len() - 1] + " "@ + DIM@ + "("@ + text::decimal(
                p.active.len(),
            ) + " active)"@,
        ),
{
    let c = text::decimal(p.completed);
    let t = text::decimal(p.total);
    let n = text::decimal(p.active.len());
    let a = "  "@ + DIM@;
    let x = "["@ + c + "/"@ + t + "]"@;
    let head = a + x + RESET@;
    assert("  "@ + DIM@ + "["@ + c + "/"@ + t + "]"@ == a + x) by {
        regrouped(a, "["@, c);
        regrouped(a, "["@ + c, "/"@);
        regrouped(a, "["@ + c + "/"@, t);
        regrouped(a, "["@ + c + "/"@ + t, "]"@);
    }
    if p.active.len() == 0 {
        let w = " waiting..."@;
        regrouped(a + x, RESET@, w);
        found_between(a, x, RESET@ + w);
        ends_with_its_end(head, w);
    } else {
        let u = p.active.last();
        let b = " "@ + YELLOW@ + "Building"@;
        let y = RESET@ + " "@ + u;
        assert(head + " "@ + YELLOW@ + "Building"@ == head + b) by {
            regrouped(head, " "@, YELLOW@);
            regrouped(head, " "@ + YELLOW@, "Building"@);
        }
        assert(head + b + RESET@ + " "@ + u == head + b + y) by {
            regrouped(head + b, RESET@, " "@);
            regrouped(head + b, RESET@ + " "@, u);
        }
        if p.active.len() == 1 {
            regrouped(head, b, y);
            regrouped(a + x, RESET@, b + y);
            found_between(a, x, RESET@ + (b + y));
            ends_with_its_end(head + b, y);
        } else {
            let z = y + " "@ + DIM@ + "("@ + n + " active)"@;
            assert(head + b + y + " "@ + DIM@ + "("@ + n + " active)"@ == head + b + z) by {
                regrouped(head + b, y, " "@);
                regrouped(head + b, y + " "@, DIM@);
                regrouped(head + b, y + " "@ + DIM@, "("@);
                regrouped(head + b, y + " "@ + DIM@ + "("@, n);
                regrouped(head + b, y + " "@ + DIM@ + "("@ + n, " active)"@);
            }
            found_between(head + b, z, RESET@);
            regrouped(head, b, z);
            regrouped(head, b + z, RESET@);
            regrouped(a + x, RESET@, b + z + RESET@);
            found_between(a, x, RESET@ + (b + z + RESET@));
        }
    }
}

proof fn regrouped(a: Seq<char>, b: Seq<char>, c: Seq<char>)
    ensures
        a + b + c == a + (b + c),
{
    assert(a + b + c =~= a + (b + c));
}

proof fn ends_with_its_end(a: Seq<char>, b: Seq<char>)
    ensures
        b.is_suffix_of(a + b),
{
    assert((a + b).subrange(a.len() as int, (a + b).len() as int) =~= b);
}

} // verus!
