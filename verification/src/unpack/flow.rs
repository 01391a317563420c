//! The flow from a dump to a clean binary: what is cleaned and verified, what is reported, and what the
//! output of a dumper means.

use crate::sigmaker::types::starting;
use crate::stamp;
use crate::text;
use crate::text::{chars_of, push_dec, read_number, skip_white, starts_with, text_of, white, word_end};
use crate::unpack::clean;
use crate::unpack::clean::{clean_bytes, CleanOptions, CleanSummary, CleanSummaryV, Cleaned};
use crate::unpack::pe::BadImage;
use crate::unpack::verify;
use crate::unpack::verify::{verify_bytes, VerifyReport, VerifyReportV};
use vstd::prelude::*;
use vstd::slice::slice_subrange;
use vstd::string::*;

verus! {

/// Coarse progress through the flow.
#[derive(Clone, Copy, Debug, PartialEq, Eq, Structural)]
pub enum Stage {
    Locate,
    Dump,
    Clean,
    Verify,
    Done,
}

/// A progress event. `Line` carries a line of a dumper's output for display.
#[derive(Clone, Copy, Debug, PartialEq, Eq)]
pub enum Progress<'a> {
    Stage(Stage),
    Line(&'a str),
}

/// A [`Progress`] by its content.
#[verifier::ext_equal]
pub enum ProgressV {
    Stage(Stage),
    Line(Seq<char>),
}

impl<'a> DeepView for Progress<'a> {
    type V = ProgressV;

    open spec fn deep_view(&self) -> ProgressV {
        match self {
            Progress::Stage(s) => ProgressV::Stage(*s),
            Progress::Line(t) => ProgressV::Line(t@),
        }
    }
}

/// The end-to-end result. `output` is `None` where the gates failed: then no binary is written.
#[derive(Clone, Debug)]
pub struct UnpackReport {
    pub input: String,
    pub output: Option<String>,
    pub dump_path: Option<String>,
    pub gates_pass: bool,
    pub clean: CleanSummary,
    pub verify: VerifyReport,
}

/// A dump cleaned and held against the gates. `packed` is the packed original, for the strong proof that
/// the code is the same; without it the dump itself is the reference, which proves only that cleaning
/// kept the code.
pub open spec fn checked(raw: Seq<u8>, opts: CleanOptions, packed: Option<Seq<u8>>) -> Result<
    (Seq<u8>, CleanSummaryV, VerifyReportV),
    Seq<char>,
> {
    match clean::cleaned(raw, opts) {
        Err(m) => Err(m),
        Ok((data, summary)) => match verify::verified(
            data,
            reference_for(raw, packed),
        ) {
            Err(m) => Err(m),
            Ok(v) => Ok((data, summary, v)),
        },
    }
}

/// What a cleaned dump is held against: the packed original where it is at hand, else the dump itself.
pub open spec fn reference_for(raw: Seq<u8>, packed: Option<Seq<u8>>) -> Option<(Seq<u8>, Seq<char>)> {
    match packed {
        Some(b) => Some((b, "packed original"@)),
        None => Some((raw, "input dump"@)),
    }
}

/// Hold a cleaned dump against the gates: its code against that of the packed original where it is at hand,
/// else against that of the dump, which shows only that cleaning preserved it.
pub fn verify_cleaned(raw: &[u8], data: &[u8], packed: Option<&[u8]>) -> (r: Result<
    VerifyReport,
    BadImage,
>)
    ensures
        ({
            let want = verify::verified(
                data@,
                reference_for(
                    raw@,
                    match packed {
                        Some(b) => Some(b@),
                        None => None,
                    },
                ),
            );
            match r {
                Ok(v) => want == Ok::<VerifyReportV, Seq<char>>(v.deep_view()),
                Err(e) => want == Err::<VerifyReportV, Seq<char>>(e.message@),
            }
        }),
{
    let reference: Option<(&[u8], &str)> = match packed {
        Some(b) => Some((b, "packed original")),
        None => Some((raw, "input dump")),
    };
    verify_bytes(data, reference)
}

/// Clean a dump and hold the result against the gates.
pub fn clean_and_verify(raw: &[u8], opts: &CleanOptions, packed: Option<&[u8]>) -> (r: Result<
    (Cleaned, VerifyReport),
    BadImage,
>)
    ensures
        ({
            let want = checked(
                raw@,
                *opts,
                match packed {
                    Some(b) => Some(b@),
                    None => None,
                },
            );
            match r {
                Ok((c, v)) => want == Ok::<(Seq<u8>, CleanSummaryV, VerifyReportV), Seq<char>>(
                    (c.data@, c.summary.deep_view(), v.deep_view()),
                ),
                Err(e) => want == Err::<(Seq<u8>, CleanSummaryV, VerifyReportV), Seq<char>>(
                    e.message@,
                ),
            }
        }),
{
    let cleaned = match clean_bytes(raw, opts) {
        Ok(c) => c,
        Err(e) => {
            return Err(e);
        },
    };
    match verify_cleaned(raw, cleaned.data.as_slice(), packed) {
        Ok(v) => Ok((cleaned, v)),
        Err(e) => Err(e),
    }
}

/// The report on a run: a binary is written to `out` only where every gate passed.
pub fn conclude(
    input: String,
    out: String,
    dump_path: Option<String>,
    clean: CleanSummary,
    verify: VerifyReport,
) -> (r: UnpackReport)
    ensures
        r.input == input,
        r.output == (if verify.gates_pass {
            Some(out)
        } else {
            None
        }),
        r.dump_path == dump_path,
        r.gates_pass == verify.gates_pass,
        r.clean == clean,
        r.verify == verify,
{
    let gates_pass: bool = verify.gates_pass;
    let output: Option<String> = if gates_pass {
        Some(out)
    } else {
        None
    };
    UnpackReport { input, output, dump_path, gates_pass, clean, verify }
}

/// A text without the white space behind it.
pub open spec fn untailed(s: Seq<char>) -> Seq<char>
    decreases s.len(),
{
    if s.len() > 0 && text::is_white(s.last()) {
        untailed(s.drop_last())
    } else {
        s
    }
}

/// A text without the white space around it.
pub open spec fn trimmed(s: Seq<char>) -> Seq<char> {
    untailed(text::unindented(s))
}

/// The first word of a text; empty where there is none.
pub open spec fn leading_word(s: Seq<char>) -> Seq<char> {
    let t = text::unindented(s);
    t.take(text::word_len(t))
}

/// What a line of the native dumper's output says: a stage, or a line to show.
pub open spec fn note_of(line: Seq<char>) -> ProgressV {
    if text::starts(line, "[native-unpack] "@) {
        let rest = line.skip(16);
        if leading_word(rest) == "clean"@ {
            ProgressV::Stage(Stage::Clean)
        } else if leading_word(rest) == "verify"@ {
            ProgressV::Stage(Stage::Verify)
        } else {
            ProgressV::Line(rest)
        }
    } else {
        ProgressV::Line(trimmed(line))
    }
}

fn find_end(v: &[char]) -> (n: usize)
    ensures
        n <= v@.len(),
        v@.take(n as int) == untailed(v@),
{
    let mut n: usize = v.len();
    assert(v@.take(n as int) =~= v@);
    while n > 0 && white(v[n - 1])
        invariant
            n <= v@.len(),
            untailed(v@.take(n as int)) == untailed(v@),
        decreases n,
    {
        assert(v@.take(n as int).drop_last() =~= v@.take(n - 1));
        n -= 1;
    }
    n
}

fn is_leading(v: &[char], word: &str) -> (r: bool)
    ensures
        r == (leading_word(v@) == word@),
{
    let lead: usize = skip_white(v);
    let rest = slice_subrange(v, lead, v.len());
    assert(rest@ =~= text::unindented(v@));
    let n: usize = word_end(rest);
    let first = slice_subrange(rest, 0, n);
    assert(first@ =~= leading_word(v@));
    let w = chars_of(word);
    let r = starts_with(first, word) && first.len() == w.len();
    proof {
        if r {
            assert(first@.take(word@.len() as int) =~= first@);
        } else if first@ == word@ {
            assert(first@.take(word@.len() as int) =~= first@);
        }
    }
    r
}

/// Read a line of the native dumper's output.
pub fn read_note(line: &str) -> (r: Progress)
    ensures
        r.deep_view() == note_of(line@),
{
    let v = chars_of(line);
    let end: usize = v.len();
    proof {
        reveal_strlit("[native-unpack] ");
    }
    if starts_with(v.as_slice(), "[native-unpack] ") {
        let rest = slice_subrange(v.as_slice(), 16, end);
        assert(rest@ =~= line@.skip(16));
        if is_leading(rest, "clean") {
            return Progress::Stage(Stage::Clean);
        }
        if is_leading(rest, "verify") {
            return Progress::Stage(Stage::Verify);
        }
        let text = line.substring_char(16, end);
        assert(text@ =~= line@.skip(16));
        return Progress::Line(text);
    }
    let lead: usize = skip_white(v.as_slice());
    let rest = slice_subrange(v.as_slice(), lead, end);
    assert(rest@ =~= text::unindented(line@));
    let n: usize = find_end(rest);
    let text = line.substring_char(lead, lead + n);
    assert(text@ =~= trimmed(line@));
    Progress::Line(text)
}

/// The first line of a text, without the carriage return of a two-mark line end.
pub open spec fn front_line(s: Seq<char>) -> Seq<char> {
    let n = stamp::line_len(s);
    if 0 < n < s.len() && s[n - 1] == '\r' {
        s.take(n - 1)
    } else {
        s.take(n)
    }
}

/// The lines of a text.
pub open spec fn lines_of(s: Seq<char>) -> Seq<Seq<char>>
    decreases s.len(),
    via lines_shorten
{
    if s.len() == 0 {
        Seq::empty()
    } else {
        let n = stamp::line_len(s);
        seq![front_line(s)] + if n < s.len() {
            lines_of(s.skip(n + 1))
        } else {
            Seq::empty()
        }
    }
}

#[via_fn]
proof fn lines_shorten(s: Seq<char>) {
    stamp::line_fits(s);
}

/// Whether a line holds an object: its first mark is an opening brace.
pub open spec fn is_object(line: Seq<char>) -> bool {
    text::starts(text::unindented(line), "{"@)
}

/// The last of the first `n` lines that holds an object.
pub open spec fn last_object(lines: Seq<Seq<char>>, n: int) -> Option<Seq<char>>
    decreases n,
{
    if n <= 0 {
        None
    } else if is_object(lines[n - 1]) {
        Some(lines[n - 1])
    } else {
        last_object(lines, n - 1)
    }
}

/// The report that a dumper printed.
pub open spec fn report_in(s: Seq<char>) -> Option<Seq<char>> {
    let lines = lines_of(s);
    last_object(lines, lines.len() as int)
}

proof fn last_object_of_longer(lines: Seq<Seq<char>>, more: Seq<Seq<char>>, n: int)
    requires
        0 <= n <= lines.len(),
    ensures
        last_object(lines + more, n) == last_object(lines, n),
    decreases n,
{
    if n > 0 {
        last_object_of_longer(lines, more, n - 1);
        assert((lines + more)[n - 1] == lines[n - 1]);
    }
}

/// The line of a dumper's output that holds its report: the last one that starts an object.
pub fn report_line(stdout: &str) -> (r: Option<String>)
    ensures
        r.deep_view() == report_in(stdout@),
{
    let v = chars_of(stdout);
    let end: usize = v.len();
    let ghost all = lines_of(v@);
    let ghost mut done: Seq<Seq<char>> = Seq::empty();
    let mut found: Option<(usize, usize)> = None;
    let mut at: usize = 0;
    assert(v@.skip(0) =~= v@);
    assert(done + all =~= all);
    while at < end
        invariant
            end == v@.len(),
            at <= end,
            all == lines_of(v@),
            all == done + lines_of(v@.skip(at as int)),
            match found {
                Some((a, b)) => a <= b <= end && last_object(done, done.len() as int) == Some(
                    v@.subrange(a as int, b as int),
                ),
                None => last_object(done, done.len() as int) is None,
            },
        decreases end - at,
    {
        let rest = slice_subrange(v.as_slice(), at, end);
        assert(rest@ =~= v@.skip(at as int));
        let n: usize = find_line(rest);
        let to: usize = if 0 < n && n < rest.len() && rest[n - 1] == '\r' {
            n - 1
        } else {
            n
        };
        let line = slice_subrange(rest, 0, to);
        assert(line@ =~= front_line(rest@));
        assert(line@ =~= v@.subrange(at as int, at + to));
        let lead: usize = skip_white(line);
        let text = slice_subrange(line, lead, to);
        assert(text@ =~= text::unindented(line@));
        let ghost before = done;
        proof {
            let more = if n < rest@.len() {
                lines_of(rest@.skip(n + 1))
            } else {
                Seq::empty()
            };
            assert(before + (seq![line@] + more) =~= before.push(line@) + more);
            done = before.push(line@);
            last_object_of_longer(before, seq![line@], before.len() as int);
            assert(before + seq![line@] =~= done);
        }
        if starts_with(text, "{") {
            found = Some((at, at + to));
        }
        if n < end - at {
            assert(rest@.skip(n + 1) =~= v@.skip(at + n + 1));
            at = at + n + 1;
        } else {
            assert(v@.skip(end as int) =~= Seq::<char>::empty());
            at = end;
        }
    }
    assert(v@.skip(end as int) =~= Seq::<char>::empty());
    assert(done =~= all);
    match found {
        Some((a, b)) => Some(text_of(slice_subrange(v.as_slice(), a, b))),
        None => None,
    }
}

fn find_line(v: &[char]) -> (n: usize)
    ensures
        n == stamp::line_len(v@),
        n <= v@.len(),
{
    let mut n: usize = 0;
    assert(v@.skip(0) =~= v@);
    while n < v.len() && v[n] != '\n'
        invariant
            n <= v@.len(),
            stamp::line_len(v@) == n + stamp::line_len(v@.skip(n as int)),
        decreases v@.len() - n,
    {
        assert(v@.skip(n as int).skip(1) =~= v@.skip(n + 1));
        n += 1;
    }
    n
}

/// How long a dumper may run, in seconds, where nothing else is set.
pub const DEFAULT_TIMEOUT_SECS: u64 = 600;

/// How long a dumper may run: what is set, where that is a number above zero.
pub open spec fn allowed_secs(setting: Option<Seq<char>>) -> int {
    match setting {
        Some(s) => match text::number(s, 10, u64::MAX as int) {
            Some(n) => if n > 0 {
                n
            } else {
                DEFAULT_TIMEOUT_SECS as int
            },
            None => DEFAULT_TIMEOUT_SECS as int,
        },
        None => DEFAULT_TIMEOUT_SECS as int,
    }
}

/// How long a dumper may run, in seconds. A dumper that runs the real client can hang, so there is always
/// a limit.
pub fn timeout_secs(setting: Option<&str>) -> (n: u64)
    ensures
        n == allowed_secs(
            match setting {
                Some(s) => Some(s@),
                None => None,
            },
        ),
{
    match setting {
        Some(s) => {
            let v = chars_of(s);
            match read_number(v.as_slice(), 10, u64::MAX) {
                Some(n) if n > 0 => n,
                _ => DEFAULT_TIMEOUT_SECS,
            }
        },
        None => DEFAULT_TIMEOUT_SECS,
    }
}

/// How a dumper ended.
#[derive(Clone, Copy, Debug, PartialEq, Eq, Structural)]
pub enum Ending {
    /// It was killed after so many seconds.
    TimedOut { secs: u64 },
    /// It failed, with an exit code unless a signal ended it.
    Failed { code: Option<i32> },
    /// It succeeded, with its output file or without.
    Finished { produced: bool },
}

/// A signed number in decimal.
pub open spec fn signed(n: int) -> Seq<char> {
    if n < 0 {
        seq!['-'] + text::dec((-n) as nat)
    } else {
        text::dec(n as nat)
    }
}

/// An exit code in words.
pub open spec fn code_text(code: Option<i32>) -> Seq<char> {
    match code {
        Some(c) => signed(c as int),
        None => "signal"@,
    }
}

/// What went wrong with a dumper; `None` where it made its file.
pub open spec fn complaint(ending: Ending, detail: Seq<char>, out: Seq<char>) -> Option<Seq<char>> {
    match ending {
        Ending::TimedOut { secs } => Some(
            "unlicense timed out after "@ + text::dec(secs as nat)
                + "s and was killed; set MAPLE_UNPACK_TIMEOUT_SECS to allow longer"@,
        ),
        Ending::Failed { code } => Some(
            "unlicense failed (exit "@ + code_text(code) + "). "@ + trimmed(detail),
        ),
        Ending::Finished { produced } => if produced {
            None
        } else {
            Some("unlicense ran but did not produce "@ + out)
        },
    }
}

fn push_code(s: &mut String, code: Option<i32>)
    ensures
        final(s)@ == old(s)@ + code_text(code),
{
    let ghost start = s@;
    match code {
        Some(c) => {
            if c < 0 {
                s.push('-');
                push_dec(s, (-(c as i64)) as u64);
                assert(s@ =~= start + (seq!['-'] + text::dec((-(c as int)) as nat)));
            } else {
                push_dec(s, c as u64);
            }
        },
        None => {
            s.append("signal");
        },
    }
}

fn trim(t: &str) -> (s: String)
    ensures
        s@ == trimmed(t@),
{
    let v = chars_of(t);
    let lead: usize = skip_white(v.as_slice());
    let rest = slice_subrange(v.as_slice(), lead, v.len());
    assert(rest@ =~= text::unindented(t@));
    let n: usize = find_end(rest);
    let body = slice_subrange(rest, 0, n);
    assert(body@ =~= trimmed(t@));
    text_of(body)
}

/// What went wrong with a dumper that wrote `detail` to its error output and should have made `out`;
/// `None` where it made its file.
pub fn judge_dump(ending: Ending, detail: &str, out: &str) -> (r: Option<String>)
    ensures
        r.deep_view() == complaint(ending, detail@, out@),
{
    match ending {
        Ending::TimedOut { secs } => {
            let mut s = starting("unlicense timed out after ");
            push_dec(&mut s, secs);
            s.append("s and was killed; set MAPLE_UNPACK_TIMEOUT_SECS to allow longer");
            Some(s)
        },
        Ending::Failed { code } => {
            let mut s = starting("unlicense failed (exit ");
            push_code(&mut s, code);
            s.append("). ");
            let t = trim(detail);
            s.append(t.as_str());
            Some(s)
        },
        Ending::Finished { produced } => {
            if produced {
                None
            } else {
                let mut s = starting("unlicense ran but did not produce ");
                s.append(out);
                Some(s)
            }
        },
    }
}

/// What is said of a native dumper that failed.
pub fn judge_native(code: Option<i32>) -> (s: String)
    ensures
        s@ == "the native dumper failed (exit "@ + code_text(code)
            + "); no verified binary was written"@,
{
    let mut s = starting("the native dumper failed (exit ");
    push_code(&mut s, code);
    s.append("); no verified binary was written");
    s
}

/// The name of the file that a dump of `packed` is written to.
pub fn dump_name(packed: &str) -> (s: String)
    ensures
        s@ == "unpacked_"@ + packed@,
{
    let mut s = starting("unpacked_");
    s.append(packed);
    s
}

/// What a wait for a dumper's output brings.
#[derive(Clone, Copy, PartialEq, Eq, Debug, Structural)]
pub enum WaitEvent {
    /// The dumper wrote a line.
    Line,
    /// It wrote nothing for a while.
    Silence,
    /// It closed its output.
    Closed,
}

/// What to do next while a dumper runs.
#[derive(Clone, Copy, PartialEq, Eq, Debug, Structural)]
pub enum WaitStep {
    /// Show the line and wait on.
    Show,
    Wait,
    /// Kill the dumper and stop waiting.
    Kill,
    Stop,
}

/// What to do after a wait: a line is shown, a closed output ends the wait, and silence past the deadline
/// ends the dumper. A dumper that keeps writing is not killed.
pub fn next_wait(event: WaitEvent, past_deadline: bool) -> (a: WaitStep)
    ensures
        a == (match event {
            WaitEvent::Line => WaitStep::Show,
            WaitEvent::Closed => WaitStep::Stop,
            WaitEvent::Silence => if past_deadline {
                WaitStep::Kill
            } else {
                WaitStep::Wait
            },
        }),
{
    match event {
        WaitEvent::Line => WaitStep::Show,
        WaitEvent::Closed => WaitStep::Stop,
        WaitEvent::Silence => {
            if past_deadline {
                WaitStep::Kill
            } else {
                WaitStep::Wait
            }
        },
    }
}

}
