use crate::text::{
    is_last_occurrence, lemma_last_occurrence_exists, occurs_at,
    chars_of, contains, contains_exec, find_last, lemma_last_occurrence_unique, rsplit_once,
    skip_ws, starts_with, starts_with_exec, string_of, trim_start,
};
use crate::ui::style::{
    lemma_spans_text_one, lemma_spans_text_three, one_span, span_views, spans_text, three_spans,
    Span, Tone,
};
use vstd::prelude::*;

verus! {

/// What a line of a configure/make transcript is shown as.
#[derive(Clone, Copy, PartialEq, Eq, Structural, Debug)]
pub enum AutotoolsLine {
    /// A "checking for ..." probe, shown with its answer coloured.
    Check,
    /// "configure: error:" or "make: ***", shown bold red.
    Fatal,
    /// A line of a diagnostic that started at an "error:" line, shown red.
    Diagnostic,
    /// A line with a warning, shown yellow.
    Warning,
    /// A link step (CCLD, LD), shown with a progress bar.
    Link,
    /// A compile or archive step (CC, AR), shown cyan.
    Compile,
    /// A status line of configure or config.status, shown bright cyan.
    Status,
    /// Anything else, shown dimmed.
    Plain,
}

/// Whether a configure/make diagnostic is still going on after `log`: an
/// "error:" line opens one, the next probe or config.status line ends it.
pub open spec fn autotools_diagnostic_after(log: Seq<char>, in_diagnostic: bool) -> bool {
    if contains(log, "error:"@) {
        true
    } else if starts_with(log, "checking "@) || starts_with(log, "config.status:"@) {
        false
    } else {
        in_diagnostic
    }
}

/// How `log` is shown, given whether a diagnostic is going on once it is
/// read.
pub open spec fn autotools_kind(log: Seq<char>, in_diagnostic: bool) -> AutotoolsLine {
    let trimmed = trim_start(log);
    if starts_with(log, "checking "@) {
        AutotoolsLine::Check
    } else if starts_with(log, "configure: error:"@) || starts_with(trimmed, "make: ***"@) {
        AutotoolsLine::Fatal
    } else if in_diagnostic {
        AutotoolsLine::Diagnostic
    } else if contains(log, "warning:"@) {
        AutotoolsLine::Warning
    } else if starts_with(trimmed, "CCLD"@) || starts_with(trimmed, "LD"@) {
        AutotoolsLine::Link
    } else if starts_with(trimmed, "CC"@) || starts_with(trimmed, "AR"@) {
        AutotoolsLine::Compile
    } else if starts_with(log, "configure:"@) || starts_with(log, "config.status:"@) {
        AutotoolsLine::Status
    } else {
        AutotoolsLine::Plain
    }
}

/// Reads one transcript line: how it is shown, and whether a diagnostic is
/// going on after it. The state starts out false for a transcript.
pub fn classify(log: &str, in_diagnostic: bool) -> (r: (AutotoolsLine, bool))
    ensures
        r.1 == autotools_diagnostic_after(log@, in_diagnostic),
        r.0 == autotools_kind(log@, r.1),
{
    let cs = chars_of(log);
    let n = cs.len();
    let t = skip_ws(&cs, 0, n);
    let trimmed = string_of(&cs, t, n);
    let tc = chars_of(trimmed.as_str());
    proof {
        assert(cs@.subrange(0, n as int) =~= cs@);
        assert(tc@ =~= trim_start(log@));
    }
    let checking = starts_with_exec(&cs, &chars_of("checking "));
    let status = starts_with_exec(&cs, &chars_of("config.status:"));
    let error = contains_exec(&cs, &chars_of("error:"));
    let diagnostic = if error {
        true
    } else if checking || status {
        false
    } else {
        in_diagnostic
    };
    let kind = if checking {
        AutotoolsLine::Check
    } else if starts_with_exec(&cs, &chars_of("configure: error:")) || starts_with_exec(
        &tc,
        &chars_of("make: ***"),
    ) {
        AutotoolsLine::Fatal
    } else if diagnostic {
        AutotoolsLine::Diagnostic
    } else if contains_exec(&cs, &chars_of("warning:")) {
        AutotoolsLine::Warning
    } else if starts_with_exec(&tc, &chars_of("CCLD")) || starts_with_exec(&tc, &chars_of("LD")) {
        AutotoolsLine::Link
    } else if starts_with_exec(&tc, &chars_of("CC")) || starts_with_exec(&tc, &chars_of("AR")) {
        AutotoolsLine::Compile
    } else if starts_with_exec(&cs, &chars_of("configure:")) || status {
        AutotoolsLine::Status
    } else {
        AutotoolsLine::Plain
    };
    (kind, diagnostic)
}

/// The colour of the answer to a probe: yellow when it is negative.
pub open spec fn answer_tone(answer: Seq<char>) -> Tone {
    if starts_with(answer, "no"@) || contains(answer, "not found"@) {
        Tone::Yellow
    } else {
        Tone::Green
    }
}

/// A "checking for foo... yes" line as shown: the question dimmed, the
/// answer after the last "... " yellow when negative and green otherwise; a
/// line without "... " all dimmed.
pub open spec fn check_spans(log: Seq<char>) -> Seq<(Seq<char>, Tone)> {
    match rsplit_once(log, "... "@) {
        Some((question, answer)) => seq![
            (question, Tone::Dimmed),
            ("... "@, Tone::Plain),
            (answer, answer_tone(answer)),
        ],
        None => seq![(log, Tone::Dimmed)],
    }
}

/// Colours a probe line so that its answer stands out.
pub fn render_check(log: &str) -> (spans: Vec<Span>)
    ensures
        span_views(spans@) == check_spans(log@),
{
    let cs = chars_of(log);
    let sep = chars_of("... ");
    match find_last(&cs, &sep) {
        Some(i) => {
            proof {
                lemma_last_occurrence_unique(cs@, sep@, i as int);
            }
            let n = cs.len();
            let question = string_of(&cs, 0, i);
            let answer = string_of(&cs, i + sep.len(), n);
            let ac = chars_of(answer.as_str());
            let negative = starts_with_exec(&ac, &chars_of("no")) || contains_exec(
                &ac,
                &chars_of("not found"),
            );
            let tone = if negative {
                Tone::Yellow
            } else {
                Tone::Green
            };
            proof {
                assert(question@ =~= cs@.take(i as int));
                assert(answer@ =~= cs@.skip(i + sep@.len()));
            }
            three_spans(question, Tone::Dimmed, "... ", answer, tone)
        },
        None => one_span(log, Tone::Dimmed),
    }
}

/// Colouring a probe line keeps its text: the spans read back as the line.
pub proof fn lemma_check_spans_keep_text(log: Seq<char>)
    ensures
        spans_text(check_spans(log)) == log,
{
    match rsplit_once(log, "... "@) {
        Some((left, right)) => {
            let k = choose|k: int| occurs_at(log, "... "@, k);
            lemma_last_occurrence_exists(log, "... "@, k);
            let i = choose|i: int| is_last_occurrence(log, "... "@, i);
            assert(log.subrange(i, i + "... "@.len()) == "... "@);
            lemma_spans_text_three(
                (left, Tone::Dimmed),
                ("... "@, Tone::Plain),
                (right, answer_tone(right)),
            );
            assert(left + "... "@ + right =~= log);
        },
        None => {
            lemma_spans_text_one((log, Tone::Dimmed));
        },
    }
}

/// While a diagnostic is open, every line that is not a probe and not a
/// fatal configure or make line is shown as part of the diagnostic, whatever
/// else (such as "warning:") it holds.
pub proof fn lemma_diagnostic_block_stays_red(log: Seq<char>)
    requires
        !starts_with(log, "checking "@),
        !starts_with(log, "configure: error:"@),
        !starts_with(trim_start(log), "make: ***"@),
    ensures
        autotools_kind(log, true) == AutotoolsLine::Diagnostic,
{
}

/// A probe whose answer begins with "no", or mentions "not found", is shown
/// yellow; any other answer is shown green.
pub proof fn lemma_negative_answers_yellow(log: Seq<char>, question: Seq<char>, answer: Seq<char>)
    requires
        rsplit_once(log, "... "@) == Some((question, answer)),
    ensures
        check_spans(log).len() == 3,
        check_spans(log)[0] == (question, Tone::Dimmed),
        check_spans(log)[1] == ("... "@, Tone::Plain),
        check_spans(log)[2].0 == answer,
        (starts_with(answer, "no"@) || contains(answer, "not found"@)) ==> check_spans(log)[2].1
            == Tone::Yellow,
        !(starts_with(answer, "no"@) || contains(answer, "not found"@)) ==> check_spans(log)[2].1
            == Tone::Green,
{
}

/// A probe line is always shown as a probe, and it ends any open
/// diagnostic unless it reports an error itself.
pub proof fn lemma_probe_lines(log: Seq<char>, in_diagnostic: bool)
    requires
        starts_with(log, "checking "@),
    ensures
        autotools_kind(log, autotools_diagnostic_after(log, in_diagnostic)) == AutotoolsLine::Check,
        !contains(log, "error:"@) ==> !autotools_diagnostic_after(log, in_diagnostic),
{
}

/// A line reporting an error opens a diagnostic, whatever came before; a
/// "configure: error:" line is shown as fatal.
pub proof fn lemma_error_lines(log: Seq<char>, in_diagnostic: bool)
    requires
        contains(log, "error:"@),
    ensures
        autotools_diagnostic_after(log, in_diagnostic),
        starts_with(log, "configure: error:"@) ==> autotools_kind(log, true)
            == AutotoolsLine::Fatal,
{
    if starts_with(log, "configure: error:"@) {
        reveal_strlit("configure: error:");
        reveal_strlit("checking ");
        assert(log.take(17)[1] == "configure: error:"@[1]);
        assert(log[1] == 'o');
        assert(log.take(9)[1] == 'o');
        assert("checking "@[1] == 'h');
        assert(log.take(9) != "checking "@);
    }
}

/// Outside a diagnostic, a line mentioning a warning that is neither a probe
/// nor a fatal line is shown as a warning.
pub proof fn lemma_warning_lines(log: Seq<char>)
    requires
        contains(log, "warning:"@),
        !starts_with(log, "checking "@),
        !starts_with(log, "configure: error:"@),
        !starts_with(trim_start(log), "make: ***"@),
    ensures
        autotools_kind(log, false) == AutotoolsLine::Warning,
{
}

} // verus!
