use crate::text::{
    is_last_occurrence, lemma_last_occurrence_exists, occurs_at,
    chars_of, contains, contains_exec, find_first, find_last, lemma_first_occurrence_unique,
    lemma_last_occurrence_unique, rsplit_once, skip_ws, skip_ws_back, split_once, starts_with,
    starts_with_exec, string_of, sub_chars, trim, trim_start,
};
use crate::ui::style::{
    lemma_spans_text_one, lemma_spans_text_three, one_span, span_views, spans_text, three_spans,
    Span, Tone,
};
use vstd::prelude::*;

verus! {

// ---------------------------------------------------------------------------
// Float literals, as `f32::from_str` accepts them
// ---------------------------------------------------------------------------

/// An ASCII decimal digit.
pub open spec fn is_digit(c: char) -> bool {
    '0' <= c && c <= '9'
}

/// Every character is a decimal digit.
pub open spec fn all_digits(s: Seq<char>) -> bool {
    forall|i: int| 0 <= i < s.len() ==> is_digit(#[trigger] s[i])
}

/// The code of the character with ASCII capitals made small.
pub open spec fn ascii_lower(c: char) -> int {
    if 'A' <= c && c <= 'Z' {
        (c as u32) + 32
    } else {
        c as u32 as int
    }
}

/// `s` spells the lower-case `word`, ignoring ASCII case.
pub open spec fn equals_ignoring_case(s: Seq<char>, word: Seq<char>) -> bool {
    s.len() == word.len() && forall|i: int| 0 <= i < s.len() ==> ascii_lower(#[trigger] s[i])
        == word[i] as u32 as int
}

/// `Digit+ | Digit+ '.' Digit* | Digit* '.' Digit+`.
pub open spec fn is_mantissa(s: Seq<char>) -> bool {
    ||| s.len() > 0 && all_digits(s)
    ||| s.len() >= 2 && exists|k: int|
        0 <= k < s.len() && s[k] == '.' && all_digits(s.take(k)) && all_digits(s.skip(k + 1))
}

/// `'e' Sign? Digit+`, the `e` in either case.
pub open spec fn is_exponent(s: Seq<char>) -> bool {
    &&& s.len() >= 2
    &&& (s[0] == 'e' || s[0] == 'E')
    &&& if s[1] == '+' || s[1] == '-' {
        s.len() >= 3 && all_digits(s.skip(2))
    } else {
        all_digits(s.skip(1))
    }
}

/// Length of the run of characters before the first `e` or `E`.
pub open spec fn mantissa_end(s: Seq<char>) -> nat
    decreases s.len(),
{
    if s.len() == 0 || s[0] == 'e' || s[0] == 'E' {
        0
    } else {
        1 + mantissa_end(s.drop_first())
    }
}

/// `Number ::= Mantissa Exp?`, the exponent starting at the first `e`.
pub open spec fn is_decimal_number(s: Seq<char>) -> bool {
    let k = mantissa_end(s);
    k <= s.len() && is_mantissa(s.take(k as int)) && (k == s.len() || is_exponent(
        s.skip(k as int),
    ))
}

/// What `f32::from_str` accepts: `Sign? ('inf' | 'infinity' | 'nan' |
/// Number)`, letters in either case, no surrounding whitespace.
pub open spec fn is_float_literal(s: Seq<char>) -> bool {
    let u = if s.len() > 0 && (s[0] == '+' || s[0] == '-') {
        s.drop_first()
    } else {
        s
    };
    ||| equals_ignoring_case(u, "inf"@)
    ||| equals_ignoring_case(u, "infinity"@)
    ||| equals_ignoring_case(u, "nan"@)
    ||| is_decimal_number(u)
}

fn is_digit_exec(c: char) -> (b: bool)
    ensures
        b == is_digit(c),
{
    '0' <= c && c <= '9'
}

fn all_digits_exec(s: &[char], from: usize) -> (b: bool)
    requires
        from <= s@.len(),
    ensures
        b == all_digits(s@.skip(from as int)),
{
    let n = s.len();
    let mut i = from;
    while i < n
        invariant
            from <= i <= n,
            n == s@.len(),
            forall|j: int| from <= j < i ==> is_digit(#[trigger] s@[j]),
        decreases n - i,
    {
        if !is_digit_exec(s[i]) {
            proof {
                assert(s@.skip(from as int)[i - from] == s@[i as int]);
            }
            return false;
        }
        i = i + 1;
    }
    proof {
        assert forall|k: int| 0 <= k < s@.skip(from as int).len() implies is_digit(
            #[trigger] s@.skip(from as int)[k],
        ) by {
            assert(s@.skip(from as int)[k] == s@[from + k]);
        }
    }
    true
}

fn ascii_lower_exec(c: char) -> (l: u32)
    ensures
        l == ascii_lower(c),
{
    if 'A' <= c && c <= 'Z' {
        (c as u32) + 32
    } else {
        c as u32
    }
}

fn equals_ignoring_case_exec(s: &[char], word: &[char]) -> (b: bool)
    ensures
        b == equals_ignoring_case(s@, word@),
{
    if s.len() != word.len() {
        return false;
    }
    let mut i: usize = 0;
    while i < s.len()
        invariant
            s@.len() == word@.len(),
            i <= s@.len(),
            forall|j: int| 0 <= j < i ==> ascii_lower(#[trigger] s@[j]) == word@[j] as u32 as int,
        decreases s@.len() - i,
    {
        if ascii_lower_exec(s[i]) != word[i] as u32 {
            return false;
        }
        i = i + 1;
    }
    true
}

proof fn lemma_mantissa_two_non_digits(s: Seq<char>, a: int, b: int)
    requires
        0 <= a < s.len(),
        0 <= b < s.len(),
        a != b,
        !is_digit(s[a]),
        !is_digit(s[b]),
    ensures
        !is_mantissa(s),
{
    if exists|m: int|
        0 <= m < s.len() && s[m] == '.' && all_digits(s.take(m)) && all_digits(s.skip(m + 1)) {
        let m = choose|m: int|
            0 <= m < s.len() && s[m] == '.' && all_digits(s.take(m)) && all_digits(s.skip(m + 1));
        if a < m {
            assert(s.take(m)[a] == s[a]);
        } else if a > m {
            assert(s.skip(m + 1)[a - m - 1] == s[a]);
        } else if b < m {
            assert(s.take(m)[b] == s[b]);
        } else {
            assert(s.skip(m + 1)[b - m - 1] == s[b]);
        }
    }
}

proof fn lemma_mantissa_stray(s: Seq<char>, a: int)
    requires
        0 <= a < s.len(),
        !is_digit(s[a]),
        s[a] != '.',
    ensures
        !is_mantissa(s),
{
    if exists|m: int|
        0 <= m < s.len() && s[m] == '.' && all_digits(s.take(m)) && all_digits(s.skip(m + 1)) {
        let m = choose|m: int|
            0 <= m < s.len() && s[m] == '.' && all_digits(s.take(m)) && all_digits(s.skip(m + 1));
        if a < m {
            assert(s.take(m)[a] == s[a]);
        } else {
            assert(s.skip(m + 1)[a - m - 1] == s[a]);
        }
    }
}

fn is_mantissa_exec(s: &[char]) -> (b: bool)
    ensures
        b == is_mantissa(s@),
{
    let n = s.len();
    let mut dot: Option<usize> = None;
    let mut i: usize = 0;
    while i < n
        invariant
            i <= n,
            n == s@.len(),
            match dot {
                Some(k) => k < i && s@[k as int] == '.' && forall|j: int|
                    0 <= j < i && j != k ==> is_digit(#[trigger] s@[j]),
                None => forall|j: int| 0 <= j < i ==> is_digit(#[trigger] s@[j]),
            },
        decreases n - i,
    {
        let c = s[i];
        if c == '.' {
            match dot {
                Some(k) => {
                    proof {
                        lemma_mantissa_two_non_digits(s@, k as int, i as int);
                    }
                    return false;
                },
                None => {
                    dot = Some(i);
                },
            }
        } else if !is_digit_exec(c) {
            proof {
                lemma_mantissa_stray(s@, i as int);
            }
            return false;
        }
        i = i + 1;
    }
    match dot {
        Some(k) => {
            proof {
                assert(!all_digits(s@)) by {
                    assert(!is_digit(s@[k as int]));
                }
                assert forall|j: int| 0 <= j < s@.take(k as int).len() implies is_digit(
                    #[trigger] s@.take(k as int)[j],
                ) by {
                    assert(s@.take(k as int)[j] == s@[j]);
                }
                assert forall|j: int| 0 <= j < s@.skip(k + 1).len() implies is_digit(
                    #[trigger] s@.skip(k + 1)[j],
                ) by {
                    assert(s@.skip(k + 1)[j] == s@[k + 1 + j]);
                }
            }
            n >= 2
        },
        None => n > 0,
    }
}

fn is_exponent_exec(s: &[char], from: usize) -> (b: bool)
    requires
        from <= s@.len(),
    ensures
        b == is_exponent(s@.skip(from as int)),
{
    let n = s.len();
    let ghost e = s@.skip(from as int);
    if n - from < 2 {
        return false;
    }
    if s[from] != 'e' && s[from] != 'E' {
        return false;
    }
    proof {
        assert(e[0] == s@[from as int] && e[1] == s@[from + 1]);
        assert(e.skip(2) =~= s@.skip(from + 2));
        assert(e.skip(1) =~= s@.skip(from + 1));
    }
    if s[from + 1] == '+' || s[from + 1] == '-' {
        n - from >= 3 && all_digits_exec(s, from + 2)
    } else {
        all_digits_exec(s, from + 1)
    }
}

proof fn lemma_mantissa_end(s: Seq<char>, k: int)
    requires
        0 <= k <= s.len(),
        forall|j: int| 0 <= j < k ==> #[trigger] s[j] != 'e' && s[j] != 'E',
        k == s.len() || s[k] == 'e' || s[k] == 'E',
    ensures
        mantissa_end(s) == k,
    decreases k,
{
    if k > 0 {
        assert forall|j: int| 0 <= j < k - 1 implies #[trigger] s.drop_first()[j] != 'e'
            && s.drop_first()[j] != 'E' by {
            assert(s.drop_first()[j] == s[j + 1]);
        }
        if k < s.len() {
            assert(s.drop_first()[k - 1] == s[k]);
        }
        lemma_mantissa_end(s.drop_first(), k - 1);
    }
}

fn is_decimal_number_exec(s: &[char]) -> (b: bool)
    ensures
        b == is_decimal_number(s@),
{
    let n = s.len();
    let mut k: usize = 0;
    while k < n && s[k] != 'e' && s[k] != 'E'
        invariant
            k <= n,
            n == s@.len(),
            forall|j: int| 0 <= j < k ==> #[trigger] s@[j] != 'e' && s@[j] != 'E',
        decreases n - k,
    {
        k = k + 1;
    }
    proof {
        lemma_mantissa_end(s@, k as int);
    }
    let mantissa = sub_chars(s, 0, k);
    proof {
        assert(mantissa@ =~= s@.take(k as int));
    }
    is_mantissa_exec(&mantissa) && (k == n || is_exponent_exec(s, k))
}

/// Whether `s` is text that `f32::from_str` parses.
pub fn is_float_literal_exec(s: &[char]) -> (b: bool)
    ensures
        b == is_float_literal(s@),
{
    let n = s.len();
    let u = if n > 0 && (s[0] == '+' || s[0] == '-') {
        sub_chars(s, 1, n)
    } else {
        sub_chars(s, 0, n)
    };
    proof {
        assert(s@.subrange(1, n as int) =~= s@.drop_first());
        assert(s@.subrange(0, n as int) =~= s@);
    }
    equals_ignoring_case_exec(&u, &chars_of("inf")) || equals_ignoring_case_exec(
        &u,
        &chars_of("infinity"),
    ) || equals_ignoring_case_exec(&u, &chars_of("nan")) || is_decimal_number_exec(&u)
}

// ---------------------------------------------------------------------------
// Transcript lines
// ---------------------------------------------------------------------------

/// "[ 42%] Building C object ..." split into the percentage as written and
/// the message, both trimmed; `None` unless the line (once trimmed at the
/// start) opens with `[`, holds `%]`, and what comes before it is a number
/// that `f32::from_str` parses.
pub open spec fn progress_parts(log: Seq<char>) -> Option<(Seq<char>, Seq<char>)> {
    let t = trim_start(log);
    if t.len() > 0 && t[0] == '[' {
        match split_once(t.drop_first(), "%]"@) {
            Some((percent, message)) => if is_float_literal(trim(percent)) {
                Some((trim(percent), trim(message)))
            } else {
                None
            },
            None => None,
        }
    } else {
        None
    }
}

/// The characters of `s[from..to]` with whitespace trimmed at both ends.
fn trimmed(s: &[char], from: usize, to: usize) -> (v: Vec<char>)
    requires
        from <= to <= s@.len(),
    ensures
        v@ == trim(s@.subrange(from as int, to as int)),
{
    let a = skip_ws(s, from, to);
    let b = skip_ws_back(s, a, to);
    proof {
        let sub = s@.subrange(from as int, to as int);
        assert(s@.subrange(a as int, to as int) =~= trim_start(sub));
        assert(s@.subrange(a as int, b as int) =~= trim(sub));
    }
    sub_chars(s, a, b)
}

/// Splits a progress line into its percentage (as text, for `f32` parsing)
/// and its message.
pub fn split_progress(log: &str) -> (r: Option<(String, String)>)
    ensures
        match r {
            Some((percent, message)) => progress_parts(log@) == Some((percent@, message@)),
            None => progress_parts(log@) is None,
        },
{
    let cs = chars_of(log);
    let n = cs.len();
    let t = skip_ws(&cs, 0, n);
    proof {
        assert(cs@.subrange(0, n as int) =~= cs@);
    }
    if t == n || cs[t] != '[' {
        proof {
            assert(trim_start(log@).len() == 0 || trim_start(log@)[0] == cs@[t as int]);
        }
        return None;
    }
    let rest = sub_chars(&cs, t + 1, n);
    proof {
        assert(rest@ =~= trim_start(log@).drop_first());
    }
    let sep = chars_of("%]");
    match find_first(&rest, &sep) {
        Some(i) => {
            proof {
                lemma_first_occurrence_unique(rest@, sep@, i as int);
                assert(rest@.subrange(0, i as int) =~= rest@.take(i as int));
                assert(rest@.subrange((i + sep@.len()) as int, rest@.len() as int) =~= rest@.skip(
                    i + sep@.len(),
                ));
            }
            let percent = trimmed(&rest, 0, i);
            if !is_float_literal_exec(&percent) {
                return None;
            }
            let message = trimmed(&rest, i + sep.len(), rest.len());
            Some((string_of(&percent, 0, percent.len()), string_of(&message, 0, message.len())))
        },
        None => None,
    }
}

/// The colour of a probe's result: yellow when nothing was found.
pub open spec fn result_tone(result: Seq<char>) -> Tone {
    if starts_with(result, "not found"@) || starts_with(result, "failed"@) {
        Tone::Yellow
    } else {
        Tone::Green
    }
}

/// A "-- Looking for foo - found" line as shown: the probe dimmed, the
/// result after the last " - " yellow when negative and green otherwise; a
/// line without " - " all dimmed.
pub open spec fn probe_spans(log: Seq<char>) -> Seq<(Seq<char>, Tone)> {
    match rsplit_once(log, " - "@) {
        Some((probe, result)) => seq![
            (probe, Tone::Dimmed),
            (" - "@, Tone::Plain),
            (result, result_tone(result)),
        ],
        None => seq![(log, Tone::Dimmed)],
    }
}

/// Colours a probe line so that its result stands out.
pub fn render_probe(log: &str) -> (spans: Vec<Span>)
    ensures
        span_views(spans@) == probe_spans(log@),
{
    let cs = chars_of(log);
    let sep = chars_of(" - ");
    match find_last(&cs, &sep) {
        Some(i) => {
            proof {
                lemma_last_occurrence_unique(cs@, sep@, i as int);
            }
            let n = cs.len();
            let probe = string_of(&cs, 0, i);
            let result = string_of(&cs, i + sep.len(), n);
            let rc = chars_of(result.as_str());
            let negative = starts_with_exec(&rc, &chars_of("not found")) || starts_with_exec(
                &rc,
                &chars_of("failed"),
            );
            let tone = if negative {
                Tone::Yellow
            } else {
                Tone::Green
            };
            proof {
                assert(probe@ =~= cs@.take(i as int));
                assert(result@ =~= cs@.skip(i + sep@.len()));
            }
            three_spans(probe, Tone::Dimmed, " - ", result, tone)
        },
        None => one_span(log, Tone::Dimmed),
    }
}

/// What a line of a cmake transcript is shown as.
pub enum CmakeLine {
    /// A build step with its percentage, shown with a progress bar.
    Progress { percent: String, message: String },
    /// A linking step, shown with an animated progress bar.
    Link { message: String },
    /// A line with "error:", shown bold red.
    Error,
    /// A line of a diagnostic that started at an error, shown red.
    Diagnostic,
    /// A warning or deprecation, shown yellow.
    Warning,
    /// A "-- " probe, shown with its result coloured.
    Probe,
    /// Anything else, shown dimmed.
    Plain,
}

/// Whether a compiler diagnostic is still going on after `log`: an error
/// opens one, the next "--" line or progress line ends it.
pub open spec fn cmake_diagnostic_after(log: Seq<char>, in_diagnostic: bool) -> bool {
    if contains(log, "error:"@) || starts_with(log, "CMake Error"@) {
        true
    } else if starts_with(log, "--"@) || starts_with(trim_start(log), "["@) {
        false
    } else {
        in_diagnostic
    }
}

/// `line` is how `log` is shown, given whether a diagnostic is going on
/// once it is read.
pub open spec fn cmake_kind(log: Seq<char>, in_diagnostic: bool, line: CmakeLine) -> bool {
    match progress_parts(log) {
        Some((percent, message)) => if starts_with(message, "Linking"@) {
            line matches CmakeLine::Link { message: m } && m@ == message
        } else {
            line matches CmakeLine::Progress { percent: p, message: m } && p@ == percent && m@
                == message
        },
        None => if contains(log, "error:"@) {
            line is Error
        } else if in_diagnostic {
            line is Diagnostic
        } else if contains(log, "warning:"@) || contains(log, "deprecated"@) {
            line is Warning
        } else if starts_with(log, "-- "@) {
            line is Probe
        } else {
            line is Plain
        },
    }
}

/// Reads one transcript line: how it is shown, and whether a diagnostic is
/// going on after it. The state starts out false for a transcript.
pub fn classify(log: &str, in_diagnostic: bool) -> (r: (CmakeLine, bool))
    ensures
        r.1 == cmake_diagnostic_after(log@, in_diagnostic),
        cmake_kind(log@, r.1, r.0),
{
    let cs = chars_of(log);
    let n = cs.len();
    let t = skip_ws(&cs, 0, n);
    let tc = sub_chars(&cs, t, n);
    proof {
        assert(cs@.subrange(0, n as int) =~= cs@);
        assert(tc@ =~= trim_start(log@));
    }
    let error = contains_exec(&cs, &chars_of("error:"));
    let diagnostic = if error || starts_with_exec(&cs, &chars_of("CMake Error")) {
        true
    } else if starts_with_exec(&cs, &chars_of("--")) || starts_with_exec(&tc, &chars_of("[")) {
        false
    } else {
        in_diagnostic
    };
    let kind = match split_progress(log) {
        Some((percent, message)) => {
            let mc = chars_of(message.as_str());
            if starts_with_exec(&mc, &chars_of("Linking")) {
                CmakeLine::Link { message }
            } else {
                CmakeLine::Progress { percent, message }
            }
        },
        None => {
            if error {
                CmakeLine::Error
            } else if diagnostic {
                CmakeLine::Diagnostic
            } else if contains_exec(&cs, &chars_of("warning:")) || contains_exec(
                &cs,
                &chars_of("deprecated"),
            ) {
                CmakeLine::Warning
            } else if starts_with_exec(&cs, &chars_of("-- ")) {
                CmakeLine::Probe
            } else {
                CmakeLine::Plain
            }
        },
    };
    (kind, diagnostic)
}

/// Colouring a probe line keeps its text: the spans read back as the line.
pub proof fn lemma_probe_spans_keep_text(log: Seq<char>)
    ensures
        spans_text(probe_spans(log)) == log,
{
    match rsplit_once(log, " - "@) {
        Some((left, right)) => {
            let k = choose|k: int| occurs_at(log, " - "@, k);
            lemma_last_occurrence_exists(log, " - "@, k);
            let i = choose|i: int| is_last_occurrence(log, " - "@, i);
            assert(log.subrange(i, i + " - "@.len()) == " - "@);
            lemma_spans_text_three(
                (left, Tone::Dimmed),
                (" - "@, Tone::Plain),
                (right, result_tone(right)),
            );
            assert(left + " - "@ + right =~= log);
        },
        None => {
            lemma_spans_text_one((log, Tone::Dimmed));
        },
    }
}

/// While a diagnostic is open, a line that is not a progress line and has no
/// "error:" is shown as part of the diagnostic, even when it holds
/// "warning:" or "deprecated".
pub proof fn lemma_diagnostic_block_stays_red(log: Seq<char>, line: CmakeLine)
    requires
        progress_parts(log) is None,
        !contains(log, "error:"@),
        cmake_kind(log, true, line),
    ensures
        line is Diagnostic,
{
}

/// A probe whose result begins with "not found" or with "failed" is shown
/// yellow; any other result is shown green.
pub proof fn lemma_negative_results_yellow(log: Seq<char>, probe: Seq<char>, result: Seq<char>)
    requires
        rsplit_once(log, " - "@) == Some((probe, result)),
    ensures
        probe_spans(log).len() == 3,
        probe_spans(log)[0] == (probe, Tone::Dimmed),
        probe_spans(log)[1] == (" - "@, Tone::Plain),
        probe_spans(log)[2].0 == result,
        starts_with(result, "not found"@) ==> probe_spans(log)[2].1 == Tone::Yellow,
        starts_with(result, "failed"@) ==> probe_spans(log)[2].1 == Tone::Yellow,
        !starts_with(result, "not found"@) && !starts_with(result, "failed"@) ==> probe_spans(
            log,
        )[2].1 == Tone::Green,
{
}

/// A line with "error:" that is not a progress line is shown as an error,
/// and it opens a diagnostic whatever came before.
pub proof fn lemma_error_lines(log: Seq<char>, in_diagnostic: bool, line: CmakeLine)
    requires
        contains(log, "error:"@),
        progress_parts(log) is None,
        cmake_kind(log, cmake_diagnostic_after(log, in_diagnostic), line),
    ensures
        line is Error,
        cmake_diagnostic_after(log, in_diagnostic),
{
}

/// A progress line is shown with its own percentage and message, as a link
/// step when the message begins with "Linking".
pub proof fn lemma_progress_lines(
    log: Seq<char>,
    in_diagnostic: bool,
    percent: Seq<char>,
    message: Seq<char>,
    line: CmakeLine,
)
    requires
        progress_parts(log) == Some((percent, message)),
        cmake_kind(log, in_diagnostic, line),
    ensures
        starts_with(message, "Linking"@) ==> (line matches CmakeLine::Link { message: m } && m@
            == message),
        !starts_with(message, "Linking"@) ==> (line matches CmakeLine::Progress {
            percent: p,
            message: m,
        } && p@ == percent && m@ == message),
{
}

/// Outside a diagnostic, a line that is not a progress line and has no
/// "error:" but mentions a warning or a deprecation is shown as a warning.
pub proof fn lemma_warning_lines(log: Seq<char>, line: CmakeLine)
    requires
        progress_parts(log) is None,
        !contains(log, "error:"@),
        contains(log, "warning:"@) || contains(log, "deprecated"@),
        cmake_kind(log, false, line),
    ensures
        line is Warning,
{
}

} // verus!
