use vstd::prelude::*;

verus! {

/// How a piece of a line is coloured on the terminal.
#[derive(Clone, Copy, PartialEq, Eq, Structural, Debug)]
pub enum Tone {
    Plain,
    Dimmed,
    Yellow,
    Green,
    BrightGreen,
    BrightBlue,
    BoldBrightRed,
    BoldBrightCyan,
    BoldBrightMagenta,
}

/// A piece of a line with its colour.
pub struct Span {
    pub text: String,
    pub tone: Tone,
}

/// Each span as its text and tone.
pub open spec fn span_views(spans: Seq<Span>) -> Seq<(Seq<char>, Tone)> {
    spans.map_values(|s: Span| (s.text@, s.tone))
}

/// The three spans `left`, `sep` (plain) and `right`.
pub fn three_spans(
    left: String,
    left_tone: Tone,
    sep: &str,
    right: String,
    right_tone: Tone,
) -> (spans: Vec<Span>)
    ensures
        span_views(spans@) == seq![(left@, left_tone), (sep@, Tone::Plain), (right@, right_tone)],
{
    let mut spans: Vec<Span> = Vec::new();
    spans.push(Span { text: left, tone: left_tone });
    spans.push(Span { text: String::from_str(sep), tone: Tone::Plain });
    spans.push(Span { text: right, tone: right_tone });
    proof {
        assert(span_views(spans@) =~= seq![
            (left@, left_tone),
            (sep@, Tone::Plain),
            (right@, right_tone),
        ]);
    }
    spans
}

/// A line in a single tone.
pub fn one_span(text: &str, tone: Tone) -> (spans: Vec<Span>)
    ensures
        span_views(spans@) == seq![(text@, tone)],
{
    let mut spans: Vec<Span> = Vec::new();
    spans.push(Span { text: String::from_str(text), tone });
    proof {
        assert(span_views(spans@) =~= seq![(text@, tone)]);
    }
    spans
}

/// The text of a line shown as these spans.
pub open spec fn spans_text(spans: Seq<(Seq<char>, Tone)>) -> Seq<char>
    decreases spans.len(),
{
    if spans.len() == 0 {
        Seq::empty()
    } else {
        spans_text(spans.drop_last()) + spans.last().0
    }
}

/// Three spans read as their texts one after another.
pub proof fn lemma_spans_text_three(
    a: (Seq<char>, Tone),
    b: (Seq<char>, Tone),
    c: (Seq<char>, Tone),
)
    ensures
        spans_text(seq![a, b, c]) == a.0 + b.0 + c.0,
{
    assert(seq![a, b, c].drop_last() =~= seq![a, b]);
    assert(seq![a, b].drop_last() =~= seq![a]);
    lemma_spans_text_one(a);
    assert(spans_text(seq![a, b]) == spans_text(seq![a]) + b.0);
    assert(spans_text(seq![a, b, c]) == spans_text(seq![a, b]) + c.0);
}

/// One span reads as its text.
pub proof fn lemma_spans_text_one(a: (Seq<char>, Tone))
    ensures
        spans_text(seq![a]) == a.0,
{
    assert(seq![a].drop_last() =~= Seq::<(Seq<char>, Tone)>::empty());
    assert(spans_text(seq![a]) == spans_text(Seq::<(Seq<char>, Tone)>::empty()) + a.0);
    assert(Seq::<char>::empty() + a.0 =~= a.0);
}

} // verus!
