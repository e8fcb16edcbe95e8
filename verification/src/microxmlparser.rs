//! A reader for small MicroXML fragments.
//!
//! MicroXML is a subset of XML, dramatically simpler. This reader is meant for
//! the small html fragments used as templates, so the whole text is held in
//! memory. Limitations: only utf-8; normalization turns CRLF and CR into LF and
//! removes comments; a line feed inside a text stays as it is; only three
//! characters are white space: tab, line feed and space.

use crate::text::{
    chars_of, is_whitespace, is_ws, law_trim_has_no_outer_whitespace,
    lemma_replace_after_plain_prefix, lemma_replace_cr_removes_cr, lemma_replace_not_longer,
    lemma_trim_facts, replace_all, replace_chars, starts_with, string_from_chars, trim,
    trim_chars,
};
use vstd::prelude::*;

verus! {

/// Where the reader stands with respect to the markup.
#[derive(Clone, Copy, Debug, PartialEq, Eq)]
pub enum TagState {
    InsideOfTag,
    OutsideOfTag,
    Attributes,
}

/// One item read from the fragment.
#[derive(Clone, Debug, PartialEq, Eq)]
pub enum Event {
    /// Start tag (with attributes) `<tag attr="value">`.
    StartElement(String),
    /// End tag `</tag>`.
    EndElement(String),
    /// Attribute
    Attribute(String, String),
    /// Character data between `Start` and `End` element.
    Text(String),
    /// End of XML document.
    Eof,
}

/// An event with its strings taken as character sequences.
pub enum EventView {
    StartElement(Seq<char>),
    EndElement(Seq<char>),
    Attribute(Seq<char>, Seq<char>),
    Text(Seq<char>),
    Eof,
}

impl View for Event {
    type V = EventView;

    open spec fn view(&self) -> EventView {
        match self {
            Event::StartElement(name) => EventView::StartElement(name@),
            Event::EndElement(name) => EventView::EndElement(name@),
            Event::Attribute(name, value) => EventView::Attribute(name@, value@),
            Event::Text(text) => EventView::Text(text@),
            Event::Eof => EventView::Eof,
        }
    }
}

// ---------------------------------------------------------------------------
// Normalization

/// The states of the recognizer of comments `<!-- ... -->`.
#[derive(Clone, Copy, Debug, PartialEq, Eq)]
pub enum CommentState {
    InsideOfComment,
    OutsideOfComment,
    StartDelim1,
    StartDelim2,
    StartDelim3,
    EndDelim1,
    EndDelim2,
}

/// One step of the comment recognizer: the next state, and the characters that
/// go to the output.
pub open spec fn comment_step(st: CommentState, c: char) -> (CommentState, Seq<char>) {
    match st {
        CommentState::OutsideOfComment => if c == '<' {
            (CommentState::StartDelim1, seq![])
        } else {
            (CommentState::OutsideOfComment, seq![c])
        },
        CommentState::StartDelim1 => if c == '!' {
            (CommentState::StartDelim2, seq![])
        } else {
            (CommentState::OutsideOfComment, seq!['<', c])
        },
        CommentState::StartDelim2 => if c == '-' {
            (CommentState::StartDelim3, seq![])
        } else {
            (CommentState::OutsideOfComment, seq!['<', '!', c])
        },
        CommentState::StartDelim3 => if c == '-' {
            (CommentState::InsideOfComment, seq![])
        } else {
            (CommentState::OutsideOfComment, seq!['<', '!', '-', c])
        },
        CommentState::InsideOfComment => if c == '-' {
            (CommentState::EndDelim1, seq![])
        } else {
            (CommentState::InsideOfComment, seq![])
        },
        CommentState::EndDelim1 => if c == '-' {
            (CommentState::EndDelim2, seq![])
        } else {
            (CommentState::InsideOfComment, seq![])
        },
        CommentState::EndDelim2 => if c == '>' {
            (CommentState::OutsideOfComment, seq![])
        } else {
            (CommentState::InsideOfComment, seq![])
        },
    }
}

/// What the recognizer holds back in state `st` because it may begin a
/// comment: it goes to the output where no comment follows.
pub open spec fn pending(st: CommentState) -> Seq<char> {
    match st {
        CommentState::StartDelim1 => seq!['<'],
        CommentState::StartDelim2 => seq!['<', '!'],
        CommentState::StartDelim3 => seq!['<', '!', '-'],
        _ => seq![],
    }
}

/// The output of the comment recognizer run from state `st` over `s`; at the
/// end of the text the characters held back are given out.
pub open spec fn strip_comments(st: CommentState, s: Seq<char>) -> Seq<char>
    decreases s.len(),
{
    if s.len() == 0 {
        pending(st)
    } else {
        comment_step(st, s[0]).1 + strip_comments(comment_step(st, s[0]).0, s.drop_first())
    }
}

/// `s` with CRLF and then CR turned into LF.
pub open spec fn line_ends_normalized(s: Seq<char>) -> Seq<char> {
    replace_all(replace_all(s, seq!['\r', '\n'], seq!['\n']), seq!['\r'], seq!['\n'])
}

/// The MicroXML normalization of `s`: line ends turned into LF, comments
/// removed, white space trimmed before and after.
pub open spec fn normalized(s: Seq<char>) -> Seq<char> {
    trim(strip_comments(CommentState::OutsideOfComment, line_ends_normalized(s)))
}

proof fn lemma_strip_cons(st: CommentState, c: char, t: Seq<char>)
    ensures
        strip_comments(st, seq![c] + t) == comment_step(st, c).1 + strip_comments(
            comment_step(st, c).0,
            t,
        ),
{
    assert((seq![c] + t).drop_first() =~= t);
}

proof fn lemma_strip_keeps_no_cr(st: CommentState, s: Seq<char>)
    requires
        !s.contains('\r'),
    ensures
        !strip_comments(st, s).contains('\r'),
    decreases s.len(),
{
    if s.len() == 0 {
        assert(!pending(st).contains('\r'));
    } else {
        let step = comment_step(st, s[0]);
        assert(s[0] != '\r');
        assert(!s.drop_first().contains('\r')) by {
            if s.drop_first().contains('\r') {
                let k = choose|k: int| 0 <= k < s.drop_first().len() && s.drop_first()[k] == '\r';
                assert(s[k + 1] == '\r');
            }
        }
        lemma_strip_keeps_no_cr(step.0, s.drop_first());
        let rest = strip_comments(step.0, s.drop_first());
        let r = strip_comments(st, s);
        assert(r == step.1 + rest);
        assert(!step.1.contains('\r'));
        assert forall|i: int| 0 <= i < r.len() implies r[i] != '\r' by {
            if i < step.1.len() {
                assert(r[i] == step.1[i]);
            } else {
                assert(r[i] == rest[i - step.1.len()]);
            }
        }
    }
}

/// After normalization no carriage return is left: CRLF and CR have become LF.
pub proof fn law_normalized_has_no_carriage_return(s: Seq<char>)
    ensures
        !normalized(s).contains('\r'),
{
    let once = replace_all(s, seq!['\r', '\n'], seq!['\n']);
    lemma_replace_cr_removes_cr(once);
    let stripped = strip_comments(CommentState::OutsideOfComment, line_ends_normalized(s));
    lemma_strip_keeps_no_cr(CommentState::OutsideOfComment, line_ends_normalized(s));
    lemma_trim_facts(stripped);
    assert forall|i: int| 0 <= i < normalized(s).len() implies normalized(s)[i] != '\r' by {
        assert(stripped.contains(normalized(s)[i]));
    }
}

proof fn lemma_strip_not_longer(st: CommentState, s: Seq<char>)
    ensures
        strip_comments(st, s).len() <= s.len() + pending(st).len(),
    decreases s.len(),
{
    if s.len() > 0 {
        lemma_strip_not_longer(comment_step(st, s[0]).0, s.drop_first());
    }
}

/// Normalization only removes characters: the normalized text is never longer
/// than the text it was made from.
pub proof fn law_normalized_not_longer(s: Seq<char>)
    ensures
        normalized(s).len() <= s.len(),
{
    let once = replace_all(s, seq!['\r', '\n'], seq!['\n']);
    lemma_replace_not_longer(s, seq!['\r', '\n'], seq!['\n']);
    lemma_replace_not_longer(once, seq!['\r'], seq!['\n']);
    let stripped = strip_comments(CommentState::OutsideOfComment, line_ends_normalized(s));
    lemma_strip_not_longer(CommentState::OutsideOfComment, line_ends_normalized(s));
    lemma_trim_facts(stripped);
}

/// Line ends: text without CR is kept, a CRLF becomes one LF and a CR that is
/// not followed by LF becomes LF, and the rest is treated alike.
pub proof fn law_line_ends(a: Seq<char>, b: Seq<char>)
    requires
        !a.contains('\r'),
    ensures
        line_ends_normalized(a + seq!['\r', '\n'] + b) == a + seq!['\n'] + line_ends_normalized(b),
        b.len() == 0 || b[0] != '\n' ==> line_ends_normalized(a + seq!['\r'] + b) == a + seq![
            '\n',
        ] + line_ends_normalized(b),
{
    let crlf = seq!['\r', '\n'];
    let cr = seq!['\r'];
    let lf = seq!['\n'];
    // the CRLF case
    let x = crlf + b;
    assert(a + crlf + b =~= a + x);
    lemma_replace_after_plain_prefix(a, x, crlf, lf);
    assert(starts_with(x, crlf));
    assert(x.skip(2) =~= b);
    let r1 = replace_all(b, crlf, lf);
    assert(replace_all(a + x, crlf, lf) =~= a + (lf + r1));
    assert(!(a + lf).contains('\r')) by {
        if (a + lf).contains('\r') {
            let k = choose|k: int| 0 <= k < (a + lf).len() && (a + lf)[k] == '\r';
            if k < a.len() {
                assert(a[k] == '\r');
            }
        }
    }
    assert(a + (lf + r1) =~= (a + lf) + r1);
    lemma_replace_after_plain_prefix(a + lf, r1, cr, lf);
    // the lone CR case
    if b.len() == 0 || b[0] != '\n' {
        let y = cr + b;
        assert(a + cr + b =~= a + y);
        lemma_replace_after_plain_prefix(a, y, crlf, lf);
        assert(!starts_with(y, crlf));
        assert(y.drop_first() =~= b);
        assert(replace_all(a + y, crlf, lf) =~= a + (cr + r1));
        assert(a + (cr + r1) =~= a + (cr + r1));
        lemma_replace_after_plain_prefix(a, cr + r1, cr, lf);
        let z = cr + r1;
        assert(starts_with(z, cr));
        assert(z.skip(1) =~= r1);
        assert(a + (lf + replace_all(r1, cr, lf)) =~= a + lf + replace_all(r1, cr, lf));
    }
    assert(a + lf + replace_all(r1, cr, lf) =~= (a + lf) + replace_all(r1, cr, lf));
}

/// A comment body as XML allows it: no `--` inside, and no `-` at its end.
pub open spec fn is_comment_body(body: Seq<char>) -> bool {
    &&& forall|i: int| 0 <= i < body.len() - 1 ==> !(#[trigger] body[i] == '-' && body[i + 1] == '-')
    &&& body.len() > 0 ==> body.last() != '-'
}

proof fn lemma_comment_body_closes(body: Seq<char>, rest: Seq<char>)
    requires
        is_comment_body(body),
    ensures
        strip_comments(CommentState::InsideOfComment, body + seq!['-', '-', '>'] + rest)
            == strip_comments(CommentState::OutsideOfComment, rest),
    decreases body.len(),
{
    let tail = seq!['-', '-', '>'] + rest;
    if body.len() == 0 {
        assert(body + seq!['-', '-', '>'] + rest =~= seq!['-'] + (seq!['-'] + (seq!['>'] + rest)));
        lemma_strip_cons(CommentState::InsideOfComment, '-', seq!['-'] + (seq!['>'] + rest));
        lemma_strip_cons(CommentState::EndDelim1, '-', seq!['>'] + rest);
        lemma_strip_cons(CommentState::EndDelim2, '>', rest);
    } else if body[0] != '-' {
        let b2 = body.drop_first();
        assert(is_comment_body(b2)) by {
            assert forall|i: int| 0 <= i < b2.len() - 1 implies !(#[trigger] b2[i] == '-' && b2[i + 1]
                == '-') by {
                assert(b2[i] == body[i + 1] && b2[i + 1] == body[i + 2]);
            }
        }
        assert(body + seq!['-', '-', '>'] + rest =~= seq![body[0]] + (b2 + seq!['-', '-', '>']
            + rest));
        lemma_strip_cons(CommentState::InsideOfComment, body[0], b2 + seq!['-', '-', '>'] + rest);
        lemma_comment_body_closes(b2, rest);
    } else {
        // a single `-`, followed by a character that is no `-`
        assert(body.len() >= 2);
        assert(body[1] != '-');
        let b3 = body.skip(2);
        assert(is_comment_body(b3)) by {
            assert forall|i: int| 0 <= i < b3.len() - 1 implies !(#[trigger] b3[i] == '-' && b3[i + 1]
                == '-') by {
                assert(b3[i] == body[i + 2] && b3[i + 1] == body[i + 3]);
            }
            if b3.len() > 0 {
                assert(b3.last() == body.last());
            }
        }
        assert(body + seq!['-', '-', '>'] + rest =~= seq!['-'] + (seq![body[1]] + (b3 + seq![
            '-',
            '-',
            '>',
        ] + rest)));
        lemma_strip_cons(
            CommentState::InsideOfComment,
            '-',
            seq![body[1]] + (b3 + seq!['-', '-', '>'] + rest),
        );
        lemma_strip_cons(CommentState::EndDelim1, body[1], b3 + seq!['-', '-', '>'] + rest);
        lemma_comment_body_closes(b3, rest);
    }
}

/// A comment `<!--body-->` is removed without a trace: whatever follows it is
/// read as though the comment were not there.
pub proof fn law_comment_is_removed(body: Seq<char>, rest: Seq<char>)
    requires
        is_comment_body(body),
    ensures
        strip_comments(
            CommentState::OutsideOfComment,
            seq!['<', '!', '-', '-'] + body + seq!['-', '-', '>'] + rest,
        ) == strip_comments(CommentState::OutsideOfComment, rest),
{
    let inner = body + seq!['-', '-', '>'] + rest;
    assert(seq!['<', '!', '-', '-'] + body + seq!['-', '-', '>'] + rest =~= seq!['<'] + (seq![
        '!',
    ] + (seq!['-'] + (seq!['-'] + inner))));
    lemma_strip_cons(
        CommentState::OutsideOfComment,
        '<',
        seq!['!'] + (seq!['-'] + (seq!['-'] + inner)),
    );
    lemma_strip_cons(CommentState::StartDelim1, '!', seq!['-'] + (seq!['-'] + inner));
    lemma_strip_cons(CommentState::StartDelim2, '-', seq!['-'] + inner);
    lemma_strip_cons(CommentState::StartDelim3, '-', inner);
    lemma_comment_body_closes(body, rest);
}

proof fn lemma_strip_plain_text(s: Seq<char>)
    requires
        !s.contains('<'),
    ensures
        strip_comments(CommentState::OutsideOfComment, s) == s,
    decreases s.len(),
{
    if s.len() > 0 {
        assert(s[0] != '<');
        assert(!s.drop_first().contains('<')) by {
            if s.drop_first().contains('<') {
                let k = choose|k: int| 0 <= k < s.drop_first().len() && s.drop_first()[k] == '<';
                assert(s[k + 1] == '<');
            }
        }
        lemma_strip_plain_text(s.drop_first());
        assert(seq![s[0]] + s.drop_first() =~= s);
    }
}

proof fn lemma_replace_absent(s: Seq<char>, pat: Seq<char>, rep: Seq<char>)
    requires
        pat.len() > 0,
        !s.contains(pat[0]),
    ensures
        replace_all(s, pat, rep) == s,
    decreases s.len(),
{
    if s.len() > 0 {
        assert(s[0] != pat[0]);
        assert(!s.drop_first().contains(pat[0])) by {
            if s.drop_first().contains(pat[0]) {
                let k = choose|k: int| 0 <= k < s.drop_first().len() && s.drop_first()[k] == pat[0];
                assert(s[k + 1] == pat[0]);
            }
        }
        lemma_replace_absent(s.drop_first(), pat, rep);
        assert(seq![s[0]] + s.drop_first() =~= s);
    }
}

/// Normalization keeps all text outside of markup as it is: a text holding no
/// `<` and no carriage return comes out of the comment recognizer unchanged,
/// and its normalization only trims it.
pub proof fn law_plain_text_is_only_trimmed(s: Seq<char>)
    requires
        !s.contains('<'),
        !s.contains('\r'),
    ensures
        strip_comments(CommentState::OutsideOfComment, s) == s,
        normalized(s) == trim(s),
{
    lemma_strip_plain_text(s);
    lemma_replace_absent(s, seq!['\r', '\n'], seq!['\n']);
    lemma_replace_absent(s, seq!['\r'], seq!['\n']);
}

// ---------------------------------------------------------------------------
// Reading events

/// The character at `p` and the position after it.
pub open spec fn next_char(s: Seq<char>, p: int) -> Option<(char, int)> {
    if 0 <= p < s.len() {
        Some((s[p], p + 1))
    } else {
        None
    }
}

/// The first non white space character at or after `p`, and the position after it.
pub open spec fn next_non_ws(s: Seq<char>, p: int) -> Option<(char, int)>
    decreases s.len() - p,
{
    if 0 <= p < s.len() {
        if is_ws(s[p]) {
            next_non_ws(s, p + 1)
        } else {
            Some((s[p], p + 1))
        }
    } else {
        None
    }
}

/// The next character, skipping white space when `skip_ws` holds.
pub open spec fn next_in(s: Seq<char>, p: int, skip_ws: bool) -> Option<(char, int)> {
    if skip_ws {
        next_non_ws(s, p)
    } else {
        next_char(s, p)
    }
}

/// The characters at which the reader stops collecting.
#[derive(Clone, Copy, Debug, PartialEq, Eq)]
pub enum Stop {
    /// `>`
    Gt,
    /// white space, `/` or `>`
    NameEnd,
    /// `<`
    Lt,
    /// white space or `=`
    AttrNameEnd,
    /// anything but white space or `=`
    ValueStart,
    /// `"`
    Quote,
}

/// Whether collecting with `k` stops at the character `c`.
pub open spec fn stops(k: Stop, c: char) -> bool {
    match k {
        Stop::Gt => c == '>',
        Stop::NameEnd => is_ws(c) || c == '/' || c == '>',
        Stop::Lt => c == '<',
        Stop::AttrNameEnd => is_ws(c) || c == '=',
        Stop::ValueStart => !(is_ws(c) || c == '='),
        Stop::Quote => c == '"',
    }
}

/// Where `next_non_ws` finds a character, it lies after `p` and is no white space.
pub proof fn lemma_next_non_ws(s: Seq<char>, p: int)
    ensures
        next_non_ws(s, p) matches Some((c, q)) ==> 0 <= p < q <= s.len() && c == s[q - 1]
            && !is_ws(c),
    decreases s.len() - p,
{
    if 0 <= p < s.len() && is_ws(s[p]) {
        lemma_next_non_ws(s, p + 1);
    }
}

/// Where `next_in` finds a character, it is the one just before the new position.
pub proof fn lemma_next_in(s: Seq<char>, p: int, skip_ws: bool)
    ensures
        next_in(s, p, skip_ws) matches Some((c, q)) ==> 0 <= p < q <= s.len() && c == s[q - 1],
{
    lemma_next_non_ws(s, p);
}

/// Starting at character `c` (read just before position `p`), the characters
/// pushed onto `acc` until one at which `k` stops, that character, and the
/// position after it; `None` where the text ends first.
pub open spec fn collect(
    s: Seq<char>,
    p: int,
    c: char,
    k: Stop,
    skip_ws: bool,
    acc: Seq<char>,
) -> Option<(Seq<char>, char, int)>
    decreases s.len() - p,
{
    if stops(k, c) {
        Some((acc, c, p))
    } else {
        match next_in(s, p, skip_ws) {
            None => None,
            Some((c2, p2)) => {
                proof {
                    lemma_next_in(s, p, skip_ws);
                }
                collect(s, p2, c2, k, skip_ws, acc.push(c))
            },
        }
    }
}

proof fn lemma_collect(s: Seq<char>, p: int, c: char, k: Stop, skip_ws: bool, acc: Seq<char>)
    requires
        0 <= p,
    ensures
        collect(s, p, c, k, skip_ws, acc) matches Some((a, c2, q)) ==> p <= q && stops(k, c2)
            && (!stops(k, c) ==> p < q <= s.len()) && (p <= s.len() ==> q <= s.len()),
    decreases s.len() - p,
{
    if !stops(k, c) {
        lemma_next_in(s, p, skip_ws);
        if let Some((c2, p2)) = next_in(s, p, skip_ws) {
            lemma_collect(s, p2, c2, k, skip_ws, acc.push(c));
        }
    }
}

proof fn lemma_collect_chars(
    s: Seq<char>,
    p: int,
    c: char,
    k: Stop,
    skip_ws: bool,
    acc: Seq<char>,
)
    ensures
        collect(s, p, c, k, skip_ws, acc) matches Some((a, c2, q)) ==> {
            &&& acc.len() <= a.len()
            &&& a.subrange(0, acc.len() as int) == acc
            &&& forall|i: int| acc.len() <= i < a.len() ==> !stops(k, #[trigger] a[i])
            &&& !stops(k, c) ==> a.len() > acc.len() && a[acc.len() as int] == c
            &&& skip_ws && !is_ws(c) ==> forall|i: int|
                acc.len() <= i < a.len() ==> !is_ws(#[trigger] a[i])
        },
    decreases s.len() - p,
{
    if !stops(k, c) {
        lemma_next_in(s, p, skip_ws);
        lemma_next_non_ws(s, p);
        if let Some((c2, p2)) = next_in(s, p, skip_ws) {
            let acc2 = acc.push(c);
            lemma_collect_chars(s, p2, c2, k, skip_ws, acc2);
            if let Some((a, c3, q)) = collect(s, p2, c2, k, skip_ws, acc2) {
                assert(a.subrange(0, acc.len() as int) =~= acc2.subrange(0, acc.len() as int));
                assert(acc2.subrange(0, acc.len() as int) =~= acc);
                assert(a[acc.len() as int] == a.subrange(0, acc2.len() as int)[acc.len() as int]);
                if !stops(k, c2) {
                    assert(a[acc2.len() as int] == c2);
                }
            }
        }
    }
}

/// The end of a start tag or an attribute: white space is skipped, then a `/`.
/// The character reached and the position after it.
pub open spec fn tag_end(s: Seq<char>, p: int, c: char) -> Option<(char, int)> {
    let after_ws = if is_ws(c) {
        next_non_ws(s, p)
    } else {
        Some((c, p))
    };
    match after_ws {
        None => None,
        Some((c2, p2)) => if c2 == '/' {
            next_char(s, p2)
        } else {
            Some((c2, p2))
        },
    }
}

proof fn lemma_tag_end(s: Seq<char>, p: int, c: char)
    requires
        0 <= p,
    ensures
        tag_end(s, p, c) matches Some((c2, q)) ==> p <= q && (q > p ==> q <= s.len()),
{
    lemma_next_non_ws(s, p);
    if is_ws(c) {
        if let Some((c2, p2)) = next_non_ws(s, p) {
            lemma_next_non_ws(s, p2);
        }
    }
}

/// The event read at position `p` outside of any tag, the position after it
/// and the state after it; `None` where the text ends before the event does.
pub open spec fn read_outside(s: Seq<char>, p: int) -> Option<(EventView, int, TagState)> {
    match next_non_ws(s, p) {
        None => None,
        Some((c1, p1)) => if c1 == '<' {
            match next_non_ws(s, p1) {
                None => None,
                Some((c2, p2)) => if c2 == '/' {
                    match next_non_ws(s, p2) {
                        None => None,
                        Some((c3, p3)) => match collect(s, p3, c3, Stop::Gt, true, seq![]) {
                            None => None,
                            Some((name, c4, p4)) => Some(
                                (EventView::EndElement(name), p4, TagState::OutsideOfTag),
                            ),
                        },
                    }
                } else {
                    match collect(s, p2, c2, Stop::NameEnd, false, seq![]) {
                        None => None,
                        Some((name, c3, p3)) => match tag_end(s, p3, c3) {
                            None => None,
                            Some((c5, p5)) => if c5 == '>' {
                                Some((EventView::StartElement(name), p5, TagState::OutsideOfTag))
                            } else {
                                Some((EventView::StartElement(name), p5 - 1, TagState::Attributes))
                            },
                        },
                    }
                },
            }
        } else {
            match collect(s, p1, c1, Stop::Lt, false, seq![]) {
                None => None,
                Some((text, c2, p2)) => Some(
                    (EventView::Text(trim(text)), p2 - 1, TagState::OutsideOfTag),
                ),
            }
        },
    }
}

/// Past the `=` of an attribute: the opening quote of the value is read.
pub open spec fn value_start(s: Seq<char>, p: int, c: char) -> Option<(char, int)> {
    if c == '"' {
        next_char(s, p)
    } else {
        Some((c, p))
    }
}

/// The attribute read at position `p` inside a start tag, the position after
/// it and the state after it; `None` where the text ends before it does.
pub open spec fn read_attribute(s: Seq<char>, p: int) -> Option<(EventView, int, TagState)> {
    match next_char(s, p) {
        None => None,
        Some((c1, p1)) => match collect(s, p1, c1, Stop::AttrNameEnd, false, seq![]) {
            None => None,
            Some((name, c2, p2)) => match collect(s, p2, c2, Stop::ValueStart, false, seq![]) {
                None => None,
                Some((skipped, c3, p3)) => match value_start(s, p3, c3) {
                    None => None,
                    Some((c4, p4)) => match collect(s, p4, c4, Stop::Quote, false, seq![]) {
                        None => None,
                        Some((value, c5, p5)) => match next_char(s, p5) {
                            None => None,
                            Some((c6, p6)) => match tag_end(s, p6, c6) {
                                None => None,
                                Some((c7, p7)) => if c7 == '>' {
                                    Some(
                                        (
                                            EventView::Attribute(name, value),
                                            p7,
                                            TagState::OutsideOfTag,
                                        ),
                                    )
                                } else {
                                    Some(
                                        (
                                            EventView::Attribute(name, value),
                                            p7 - 1,
                                            TagState::Attributes,
                                        ),
                                    )
                                },
                            },
                        },
                    },
                },
            },
        },
    }
}

/// The state of a reader: its normalized text, the character position it has
/// reached, and where it stands with respect to the markup.
pub struct ParserView {
    pub input: Seq<char>,
    pub pos: int,
    pub tagstate: TagState,
}

/// The next event from reader state `v`, with the position and state after it;
/// `None` where the text ends in the middle of the event.
pub open spec fn next_event(v: ParserView) -> Option<(EventView, int, TagState)> {
    if v.pos >= v.input.len() {
        Some((EventView::Eof, v.pos, v.tagstate))
    } else {
        match v.tagstate {
            TagState::OutsideOfTag => read_outside(v.input, v.pos),
            TagState::Attributes => read_attribute(v.input, v.pos),
            TagState::InsideOfTag => Some((EventView::Eof, v.pos, v.tagstate)),
        }
    }
}

/// Every event but `Eof` moves the reader forward, and never past the end of
/// its text: reading events one after the other comes to an end.
pub proof fn law_event_moves_forward(v: ParserView)
    requires
        v.pos >= 0,
    ensures
        next_event(v) matches Some((e, q, st)) ==> (e is Eof || v.pos < q <= v.input.len()),
{
    let s = v.input;
    let p = v.pos;
    if p < s.len() {
        match v.tagstate {
            TagState::OutsideOfTag => {
                lemma_next_non_ws(s, p);
                if let Some((c1, p1)) = next_non_ws(s, p) {
                    lemma_next_non_ws(s, p1);
                    lemma_collect(s, p1, c1, Stop::Lt, false, seq![]);
                    if let Some((c2, p2)) = next_non_ws(s, p1) {
                        lemma_next_non_ws(s, p2);
                        lemma_collect(s, p2, c2, Stop::NameEnd, false, seq![]);
                        if let Some((c3, p3)) = next_non_ws(s, p2) {
                            lemma_collect(s, p3, c3, Stop::Gt, true, seq![]);
                        }
                        if let Some((name, c3, p3)) = collect(
                            s,
                            p2,
                            c2,
                            Stop::NameEnd,
                            false,
                            seq![],
                        ) {
                            lemma_tag_end(s, p3, c3);
                        }
                    }
                }
            },
            TagState::Attributes => {
                if let Some((c1, p1)) = next_char(s, p) {
                    lemma_collect(s, p1, c1, Stop::AttrNameEnd, false, seq![]);
                    if let Some((name, c2, p2)) = collect(
                        s,
                        p1,
                        c1,
                        Stop::AttrNameEnd,
                        false,
                        seq![],
                    ) {
                        lemma_collect(s, p2, c2, Stop::ValueStart, false, seq![]);
                        if let Some((sk, c3, p3)) = collect(
                            s,
                            p2,
                            c2,
                            Stop::ValueStart,
                            false,
                            seq![],
                        ) {
                            if let Some((c4, p4)) = value_start(s, p3, c3) {
                                lemma_collect(s, p4, c4, Stop::Quote, false, seq![]);
                                if let Some((value, c5, p5)) = collect(
                                    s,
                                    p4,
                                    c4,
                                    Stop::Quote,
                                    false,
                                    seq![],
                                ) {
                                    if let Some((c6, p6)) = next_char(s, p5) {
                                        lemma_tag_end(s, p6, c6);
                                    }
                                }
                            }
                        }
                    }
                }
            },
            TagState::InsideOfTag => {},
        }
    }
}

/// The shape of an event: a text is not empty, holds no `<` and neither
/// begins nor ends with white space; a start tag's name holds no white space,
/// `/` or `>`; an end tag's name no white space or `>`; an attribute's name no
/// white space or `=`, and its value no `"`.
pub open spec fn well_shaped(e: EventView) -> bool {
    match e {
        EventView::Text(t) => t.len() > 0 && !is_ws(t[0]) && !is_ws(t.last()) && !t.contains(
            '<',
        ),
        EventView::StartElement(n) => forall|i: int|
            0 <= i < n.len() ==> !is_ws(#[trigger] n[i]) && n[i] != '/' && n[i] != '>',
        EventView::EndElement(n) => forall|i: int|
            0 <= i < n.len() ==> !is_ws(#[trigger] n[i]) && n[i] != '>',
        EventView::Attribute(k, v) => (forall|i: int|
            0 <= i < k.len() ==> !is_ws(#[trigger] k[i]) && k[i] != '=') && (forall|i: int|
            0 <= i < v.len() ==> #[trigger] v[i] != '"'),
        EventView::Eof => true,
    }
}

/// Every event that is read has the shape of `well_shaped`.
pub proof fn law_event_shape(v: ParserView)
    ensures
        next_event(v) matches Some((e, q, st)) ==> well_shaped(e),
{
    let s = v.input;
    let p = v.pos;
    if p < s.len() {
        match v.tagstate {
            TagState::OutsideOfTag => {
                lemma_next_non_ws(s, p);
                if let Some((c1, p1)) = next_non_ws(s, p) {
                    lemma_next_non_ws(s, p1);
                    if let Some((c2, p2)) = next_non_ws(s, p1) {
                        lemma_next_non_ws(s, p2);
                        lemma_collect_chars(s, p2, c2, Stop::NameEnd, false, seq![]);
                        if let Some((c3, p3)) = next_non_ws(s, p2) {
                            lemma_collect_chars(s, p3, c3, Stop::Gt, true, seq![]);
                        }
                    }
                    lemma_collect_chars(s, p1, c1, Stop::Lt, false, seq![]);
                    if c1 != '<' {
                        if let Some((text, c2, p2)) = collect(s, p1, c1, Stop::Lt, false, seq![]) {
                            lemma_trim_facts(text);
                            law_trim_has_no_outer_whitespace(text);
                            let t = trim(text);
                            assert forall|i: int| 0 <= i < t.len() implies t[i] != '<' by {
                                assert(text.contains(t[i]));
                                let j = choose|j: int| 0 <= j < text.len() && text[j] == t[i];
                                assert(!stops(Stop::Lt, text[j]));
                            }
                        }
                    }
                }
            },
            TagState::Attributes => {
                if let Some((c1, p1)) = next_char(s, p) {
                    lemma_collect_chars(s, p1, c1, Stop::AttrNameEnd, false, seq![]);
                    if let Some((name, c2, p2)) = collect(
                        s,
                        p1,
                        c1,
                        Stop::AttrNameEnd,
                        false,
                        seq![],
                    ) {
                        if let Some((sk, c3, p3)) = collect(
                            s,
                            p2,
                            c2,
                            Stop::ValueStart,
                            false,
                            seq![],
                        ) {
                            if let Some((c4, p4)) = value_start(s, p3, c3) {
                                lemma_collect_chars(s, p4, c4, Stop::Quote, false, seq![]);
                            }
                        }
                    }
                }
            },
            TagState::InsideOfTag => {},
        }
    }
}

/// The text of a text event neither begins nor ends with white space.
pub proof fn law_text_event_is_trimmed(v: ParserView)
    ensures
        next_event(v) matches Some((EventView::Text(t), q, st)) ==> t.len() == 0 || (!is_ws(t[0])
            && !is_ws(t.last())),
{
    if let Some((c1, p1)) = next_non_ws(v.input, v.pos) {
        if let Some((text, c2, p2)) = collect(v.input, p1, c1, Stop::Lt, false, seq![]) {
            law_trim_has_no_outer_whitespace(text);
        }
    }
}

/// `Eof` leaves the reader where it was, so reading again gives `Eof` again.
pub proof fn law_eof_is_final(v: ParserView)
    ensures
        next_event(v) matches Some((EventView::Eof, q, st)) ==> q == v.pos && st == v.tagstate
            && next_event(ParserView { pos: q, tagstate: st, ..v }) == next_event(v),
{
    assert(ParserView { pos: v.pos, tagstate: v.tagstate, ..v } == v);
}

/// The events read one after the other from a reader are well shaped, and
/// there are no more of them than characters left to read, plus the final
/// `Eof`.
pub proof fn law_events_bounded(v: ParserView)
    requires
        0 <= v.pos <= v.input.len(),
    ensures
        events_from(v) matches Some(evs) ==> evs.len() <= v.input.len() - v.pos + 1 && forall|
            i: int,
        | 0 <= i < evs.len() ==> well_shaped(#[trigger] evs[i]),
    decreases v.input.len() - v.pos,
{
    law_event_shape(v);
    law_event_moves_forward(v);
    if let Some((e, q, st)) = next_event(v) {
        if !(e is Eof) {
            let w = ParserView { pos: q, tagstate: st, ..v };
            law_events_bounded(w);
            if let Some(rest) = events_from(w) {
                let evs = seq![e] + rest;
                assert forall|i: int| 0 <= i < evs.len() implies well_shaped(#[trigger] evs[i]) by {
                    if i > 0 {
                        assert(evs[i] == rest[i - 1]);
                    }
                }
            }
        }
    }
}

/// Collecting from position `a` over a run of characters at which `k` does not
/// stop, up to the first one at `j` where it does, gives exactly that run.
proof fn lemma_collect_run(s: Seq<char>, a: int, j: int, k: Stop, skip_ws: bool, acc: Seq<char>)
    requires
        0 <= a <= j < s.len(),
        forall|i: int| a <= i < j ==> !stops(k, #[trigger] s[i]),
        stops(k, s[j]),
        skip_ws ==> forall|i: int| a < i <= j ==> !is_ws(#[trigger] s[i]),
    ensures
        collect(s, a + 1, s[a], k, skip_ws, acc) == Some((acc + s.subrange(a, j), s[j], j + 1)),
    decreases j - a,
{
    if a == j {
        assert(acc + s.subrange(a, j) =~= acc);
    } else {
        assert(!stops(k, s[a]));
        assert(next_in(s, a + 1, skip_ws) == Some((s[a + 1], a + 2)));
        lemma_collect_run(s, a + 1, j, k, skip_ws, acc.push(s[a]));
        assert(acc.push(s[a]) + s.subrange(a + 1, j) =~= acc + s.subrange(a, j));
    }
}

/// An attribute value is exactly the characters between its quotes: a reader
/// at `n="v">` inside a start tag, with a name free of white space and `=` and a
/// value free of `"`, reads the attribute `(n, v)`, white space in `v`
/// included, and stands after the `>`, outside of any tag.
pub proof fn law_attribute_value_is_between_quotes(
    pre: Seq<char>,
    n: Seq<char>,
    v: Seq<char>,
    rest: Seq<char>,
)
    requires
        forall|i: int| 0 <= i < n.len() ==> !is_ws(#[trigger] n[i]) && n[i] != '=',
        forall|i: int| 0 <= i < v.len() ==> #[trigger] v[i] != '"',
    ensures
        next_event(
            ParserView {
                input: pre + n + seq!['=', '"'] + v + seq!['"', '>'] + rest,
                pos: pre.len() as int,
                tagstate: TagState::Attributes,
            },
        ) == Some(
            (
                EventView::Attribute(n, v),
                (pre.len() + n.len() + v.len() + 4) as int,
                TagState::OutsideOfTag,
            ),
        ),
{
    let s = pre + n + seq!['=', '"'] + v + seq!['"', '>'] + rest;
    let a = pre.len() as int;
    let nl = n.len() as int;
    let vl = v.len() as int;
    assert forall|i: int| a <= i < a + nl implies #[trigger] s[i] == n[i - a] by {}
    assert(s[a + nl] == '=');
    assert(s[a + nl + 1] == '"');
    assert forall|i: int| a + nl + 2 <= i < a + nl + 2 + vl implies #[trigger] s[i] == v[i - a
        - nl - 2] by {}
    assert(s[a + nl + 2 + vl] == '"');
    assert(s[a + nl + 3 + vl] == '>');
    assert(s.subrange(a, a + nl) =~= n);
    assert(s.subrange(a + nl + 2, a + nl + 2 + vl) =~= v);
    assert(seq![] + s.subrange(a, a + nl) =~= n);
    assert(seq![] + s.subrange(a + nl + 2, a + nl + 2 + vl) =~= v);
    assert(next_char(s, a) == Some((s[a], a + 1)));
    lemma_collect_run(s, a, a + nl, Stop::AttrNameEnd, false, seq![]);
    lemma_collect_run(s, a + nl, a + nl + 1, Stop::ValueStart, false, seq![]);
    assert(value_start(s, a + nl + 2, '"') == Some((s[a + nl + 2], a + nl + 3)));
    lemma_collect_run(s, a + nl + 2, a + nl + 2 + vl, Stop::Quote, false, seq![]);
    assert(next_char(s, a + nl + 3 + vl) == Some(('>', a + nl + 4 + vl)));
}

/// A start tag is read by its name: a reader outside of any tag at `<n>`, with a
/// name that is not empty, does not begin with `/` and holds no white space,
/// `/` or `>`, reads the start tag `n` and stands after the `>`.
pub proof fn law_start_tag_is_its_name(pre: Seq<char>, n: Seq<char>, rest: Seq<char>)
    requires
        n.len() > 0,
        forall|i: int|
            0 <= i < n.len() ==> !is_ws(#[trigger] n[i]) && n[i] != '/' && n[i] != '>',
    ensures
        next_event(
            ParserView {
                input: pre + seq!['<'] + n + seq!['>'] + rest,
                pos: pre.len() as int,
                tagstate: TagState::OutsideOfTag,
            },
        ) == Some(
            (
                EventView::StartElement(n),
                (pre.len() + n.len() + 2) as int,
                TagState::OutsideOfTag,
            ),
        ),
{
    let s = pre + seq!['<'] + n + seq!['>'] + rest;
    let a = pre.len() as int;
    let nl = n.len() as int;
    assert(s[a] == '<');
    assert forall|i: int| a + 1 <= i < a + 1 + nl implies #[trigger] s[i] == n[i - a - 1] by {}
    assert(s[a + 1 + nl] == '>');
    assert(seq![] + s.subrange(a + 1, a + 1 + nl) =~= n);
    assert(next_non_ws(s, a) == Some(('<', a + 1)));
    assert(next_non_ws(s, a + 1) == Some((n[0], a + 2)));
    lemma_collect_run(s, a + 1, a + 1 + nl, Stop::NameEnd, false, seq![]);
}

/// An end tag is read by its name: a reader outside of any tag at `</n>`, with
/// a name that is not empty and holds no white space or `>`, reads the end tag
/// `n` and stands after the `>`.
pub proof fn law_end_tag_is_its_name(pre: Seq<char>, n: Seq<char>, rest: Seq<char>)
    requires
        n.len() > 0,
        forall|i: int| 0 <= i < n.len() ==> !is_ws(#[trigger] n[i]) && n[i] != '>',
    ensures
        next_event(
            ParserView {
                input: pre + seq!['<', '/'] + n + seq!['>'] + rest,
                pos: pre.len() as int,
                tagstate: TagState::OutsideOfTag,
            },
        ) == Some(
            (EventView::EndElement(n), (pre.len() + n.len() + 3) as int, TagState::OutsideOfTag),
        ),
{
    let s = pre + seq!['<', '/'] + n + seq!['>'] + rest;
    let a = pre.len() as int;
    let nl = n.len() as int;
    assert(s[a] == '<');
    assert(s[a + 1] == '/');
    assert forall|i: int| a + 2 <= i < a + 2 + nl implies #[trigger] s[i] == n[i - a - 2] by {}
    assert(s[a + 2 + nl] == '>');
    assert(seq![] + s.subrange(a + 2, a + 2 + nl) =~= n);
    assert(next_non_ws(s, a) == Some(('<', a + 1)));
    assert(next_non_ws(s, a + 1) == Some(('/', a + 2)));
    assert(next_non_ws(s, a + 2) == Some((n[0], a + 3)));
    lemma_collect_run(s, a + 2, a + 2 + nl, Stop::Gt, true, seq![]);
}

/// A text is read up to the next `<`: a reader outside of any tag at a text
/// that begins with no white space and holds no `<`, followed by `<`, reads
/// that text trimmed, and stands at the `<`.
pub proof fn law_text_runs_to_next_tag(pre: Seq<char>, t: Seq<char>, rest: Seq<char>)
    requires
        t.len() > 0,
        !is_ws(t[0]),
        !t.contains('<'),
    ensures
        next_event(
            ParserView {
                input: pre + t + seq!['<'] + rest,
                pos: pre.len() as int,
                tagstate: TagState::OutsideOfTag,
            },
        ) == Some(
            (EventView::Text(trim(t)), (pre.len() + t.len()) as int, TagState::OutsideOfTag),
        ),
{
    let s = pre + t + seq!['<'] + rest;
    let a = pre.len() as int;
    let tl = t.len() as int;
    assert forall|i: int| a <= i < a + tl implies #[trigger] s[i] == t[i - a] by {}
    assert forall|i: int| a <= i < a + tl implies !stops(Stop::Lt, #[trigger] s[i]) by {
        assert(s[i] == t[i - a]);
        if s[i] == '<' {
            assert(t.contains('<'));
        }
    }
    assert(s[a + tl] == '<');
    assert(seq![] + s.subrange(a, a + tl) =~= t);
    assert(next_non_ws(s, a) == Some((t[0], a + 1)));
    lemma_collect_run(s, a, a + tl, Stop::Lt, false, seq![]);
}

/// A start tag followed by attributes: a reader outside of any tag at `<n ` and
/// then a character that is no white space, `/` or `>`, reads the start tag `n`
/// and stands at that character, reading attributes.
pub proof fn law_start_tag_before_attributes(pre: Seq<char>, n: Seq<char>, rest: Seq<char>)
    requires
        n.len() > 0,
        forall|i: int|
            0 <= i < n.len() ==> !is_ws(#[trigger] n[i]) && n[i] != '/' && n[i] != '>',
        rest.len() > 0,
        !is_ws(rest[0]) && rest[0] != '/' && rest[0] != '>',
    ensures
        next_event(
            ParserView {
                input: pre + seq!['<'] + n + seq![' '] + rest,
                pos: pre.len() as int,
                tagstate: TagState::OutsideOfTag,
            },
        ) == Some(
            (EventView::StartElement(n), (pre.len() + n.len() + 2) as int, TagState::Attributes),
        ),
{
    let s = pre + seq!['<'] + n + seq![' '] + rest;
    let a = pre.len() as int;
    let nl = n.len() as int;
    assert(s[a] == '<');
    assert forall|i: int| a + 1 <= i < a + 1 + nl implies #[trigger] s[i] == n[i - a - 1] by {}
    assert(s[a + 1 + nl] == ' ');
    assert(s[a + 2 + nl] == rest[0]);
    assert(seq![] + s.subrange(a + 1, a + 1 + nl) =~= n);
    assert(next_non_ws(s, a) == Some(('<', a + 1)));
    assert(next_non_ws(s, a + 1) == Some((n[0], a + 2)));
    lemma_collect_run(s, a + 1, a + 1 + nl, Stop::NameEnd, false, seq![]);
    assert(next_non_ws(s, a + 2 + nl) == Some((rest[0], a + 3 + nl)));
}

/// A self-closing tag `<n/>` is read as the start tag `n`, and the reader
/// stands after the `>`, outside of any tag.
pub proof fn law_self_closing_tag(pre: Seq<char>, n: Seq<char>, rest: Seq<char>)
    requires
        n.len() > 0,
        forall|i: int|
            0 <= i < n.len() ==> !is_ws(#[trigger] n[i]) && n[i] != '/' && n[i] != '>',
    ensures
        next_event(
            ParserView {
                input: pre + seq!['<'] + n + seq!['/', '>'] + rest,
                pos: pre.len() as int,
                tagstate: TagState::OutsideOfTag,
            },
        ) == Some(
            (
                EventView::StartElement(n),
                (pre.len() + n.len() + 3) as int,
                TagState::OutsideOfTag,
            ),
        ),
{
    let s = pre + seq!['<'] + n + seq!['/', '>'] + rest;
    let a = pre.len() as int;
    let nl = n.len() as int;
    assert(s[a] == '<');
    assert forall|i: int| a + 1 <= i < a + 1 + nl implies #[trigger] s[i] == n[i - a - 1] by {}
    assert(s[a + 1 + nl] == '/');
    assert(s[a + 2 + nl] == '>');
    assert(seq![] + s.subrange(a + 1, a + 1 + nl) =~= n);
    assert(next_non_ws(s, a) == Some(('<', a + 1)));
    assert(next_non_ws(s, a + 1) == Some((n[0], a + 2)));
    lemma_collect_run(s, a + 1, a + 1 + nl, Stop::NameEnd, false, seq![]);
}

/// An attribute followed by another: a reader at `n="v" ` and then a character
/// that is no white space, `/` or `>`, reads the attribute `(n, v)` and stands
/// at that character, still reading attributes.
pub proof fn law_attribute_before_attribute(
    pre: Seq<char>,
    n: Seq<char>,
    v: Seq<char>,
    rest: Seq<char>,
)
    requires
        forall|i: int| 0 <= i < n.len() ==> !is_ws(#[trigger] n[i]) && n[i] != '=',
        forall|i: int| 0 <= i < v.len() ==> #[trigger] v[i] != '"',
        rest.len() > 0,
        !is_ws(rest[0]) && rest[0] != '/' && rest[0] != '>',
    ensures
        next_event(
            ParserView {
                input: pre + n + seq!['=', '"'] + v + seq!['"', ' '] + rest,
                pos: pre.len() as int,
                tagstate: TagState::Attributes,
            },
        ) == Some(
            (
                EventView::Attribute(n, v),
                (pre.len() + n.len() + v.len() + 4) as int,
                TagState::Attributes,
            ),
        ),
{
    let s = pre + n + seq!['=', '"'] + v + seq!['"', ' '] + rest;
    let a = pre.len() as int;
    let nl = n.len() as int;
    let vl = v.len() as int;
    assert forall|i: int| a <= i < a + nl implies #[trigger] s[i] == n[i - a] by {}
    assert(s[a + nl] == '=');
    assert(s[a + nl + 1] == '"');
    assert forall|i: int| a + nl + 2 <= i < a + nl + 2 + vl implies #[trigger] s[i] == v[i - a
        - nl - 2] by {}
    assert(s[a + nl + 2 + vl] == '"');
    assert(s[a + nl + 3 + vl] == ' ');
    assert(s[a + nl + 4 + vl] == rest[0]);
    assert(seq![] + s.subrange(a, a + nl) =~= n);
    assert(seq![] + s.subrange(a + nl + 2, a + nl + 2 + vl) =~= v);
    assert(next_char(s, a) == Some((s[a], a + 1)));
    lemma_collect_run(s, a, a + nl, Stop::AttrNameEnd, false, seq![]);
    lemma_collect_run(s, a + nl, a + nl + 1, Stop::ValueStart, false, seq![]);
    assert(value_start(s, a + nl + 2, '"') == Some((s[a + nl + 2], a + nl + 3)));
    lemma_collect_run(s, a + nl + 2, a + nl + 2 + vl, Stop::Quote, false, seq![]);
    assert(next_char(s, a + nl + 3 + vl) == Some((' ', a + nl + 4 + vl)));
    assert(next_non_ws(s, a + nl + 4 + vl) == Some((rest[0], a + nl + 5 + vl)));
}

/// At the end of its text a reader reads `Eof` and stays where it is.
pub proof fn law_end_of_text_is_eof(v: ParserView)
    requires
        v.pos == v.input.len(),
    ensures
        next_event(v) == Some((EventView::Eof, v.pos, v.tagstate)),
{
}

/// The events read from reader state `v` up to and including `Eof`; `None`
/// where the text ends in the middle of an event.
pub open spec fn events_from(v: ParserView) -> Option<Seq<EventView>>
    decreases v.input.len() - v.pos,
{
    if v.pos < 0 {
        None
    } else {
        match next_event(v) {
            None => None,
            Some((e, q, st)) => if e is Eof {
                Some(seq![e])
            } else {
                proof {
                    law_event_moves_forward(v);
                }
                match events_from(ParserView { pos: q, tagstate: st, ..v }) {
                    None => None,
                    Some(rest) => Some(seq![e] + rest),
                }
            },
        }
    }
}

// ---------------------------------------------------------------------------
// The reader

/// A reader of events from a normalized MicroXML fragment.
pub struct Parser {
    input: String,
    /// the characters of `input`, for reading by position
    chars: Vec<char>,
    //for parsing I need to know the position
    pos: usize,
    //and I need to know the TagState
    tagstate: TagState,
}

impl View for Parser {
    type V = ParserView;

    closed spec fn view(&self) -> ParserView {
        ParserView { input: self.input@, pos: self.pos as int, tagstate: self.tagstate }
    }
}

impl Parser {
    /// The character copy agrees with the text.
    #[verifier::type_invariant]
    spec fn wf(&self) -> bool {
        self.chars@ == self.input@
    }

    /// Constructor: the reader starts at the beginning of the normalized
    /// `input`, outside of any tag.
    pub fn new(input: &str) -> (parser: Parser)
        ensures
            parser@ == (ParserView {
                input: normalized(input@),
                pos: 0,
                tagstate: TagState::OutsideOfTag,
            }),
    {
        let mut parser = Parser {
            pos: 0,
            input: String::new(),
            chars: Vec::new(),
            tagstate: TagState::OutsideOfTag,
        };
        //normalization makes a new string and put it in input field
        parser.normalization(input);
        parser
    }

    /// The normalized text that the reader reads.
    pub fn input(&self) -> (r: &str)
        ensures
            r@ == self@.input,
    {
        self.input.as_str()
    }

    /// MicroXML normalization: change CRLF and CR to LF, remove comments, trim
    /// white space before and after. The result becomes the text of the
    /// reader; position and state stay as they are.
    pub fn normalization(&mut self, input: &str)
        ensures
            final(self)@ == (ParserView { input: normalized(input@), ..old(self)@ }),
    {
        let raw = chars_of(input);
        let crlf: Vec<char> = vec!['\r', '\n'];
        let cr: Vec<char> = vec!['\r'];
        let lf: Vec<char> = vec!['\n'];
        let once = replace_chars(&raw, &crlf, &lf);
        let text = replace_chars(&once, &cr, &lf);
        assert(text@ == line_ends_normalized(input@)) by {
            assert(crlf@ =~= seq!['\r', '\n']);
            assert(cr@ =~= seq!['\r']);
            assert(lf@ =~= seq!['\n']);
        }
        let stripped = strip_comments_from(&text);
        let new_input = trim_chars(&stripped);
        let chars = new_input.clone();
        *self = Parser {
            input: string_from_chars(new_input),
            chars,
            pos: self.pos,
            tagstate: self.tagstate,
        };
    }
}

/// Executable form of `stops`.
fn stops_at(k: Stop, c: char) -> (r: bool)
    ensures
        r == stops(k, c),
{
    match k {
        Stop::Gt => c == '>',
        Stop::NameEnd => is_whitespace(c) || c == '/' || c == '>',
        Stop::Lt => c == '<',
        Stop::AttrNameEnd => is_whitespace(c) || c == '=',
        Stop::ValueStart => !(is_whitespace(c) || c == '='),
        Stop::Quote => c == '"',
    }
}

impl Parser {
    /// The character at the position, moving past it; `None` at the end of the text.
    fn char_at_pos_inc_pos(&mut self) -> (r: Option<char>)
        ensures
            final(self).input == old(self).input,
            final(self).chars == old(self).chars,
            final(self).tagstate == old(self).tagstate,
            match next_char(old(self).chars@, old(self).pos as int) {
                Some((c, q)) => r == Some(c) && final(self).pos == q,
                None => r is None && final(self).pos == old(self).pos,
            },
    {
        proof {
            use_type_invariant(&*self);
        }
        if self.pos < self.chars.len() {
            let this_char = self.chars[self.pos];
            self.pos += 1;
            Some(this_char)
        } else {
            None
        }
    }

    /// The next character that is no white space, moving past it; `None` where
    /// the text ends first.
    fn char_at_pos_inc_pos_non_whitespace(&mut self) -> (r: Option<char>)
        ensures
            final(self).input == old(self).input,
            final(self).chars == old(self).chars,
            final(self).tagstate == old(self).tagstate,
            match next_non_ws(old(self).chars@, old(self).pos as int) {
                Some((c, q)) => r == Some(c) && final(self).pos == q,
                None => r is None,
            },
    {
        proof {
            use_type_invariant(&*self);
        }
        loop
            invariant
                self.input == old(self).input,
                self.chars == old(self).chars,
                self.tagstate == old(self).tagstate,
                next_non_ws(self.chars@, self.pos as int) == next_non_ws(
                    old(self).chars@,
                    old(self).pos as int,
                ),
            decreases self.chars.len() - self.pos,
        {
            match self.char_at_pos_inc_pos() {
                None => {
                    return None;
                },
                Some(this_char) => {
                    if !is_whitespace(this_char) {
                        return Some(this_char);
                    }
                },
            }
        }
    }

    /// The next character, skipping white space when `skip_ws` holds.
    fn next_char_in(&mut self, skip_ws: bool) -> (r: Option<char>)
        ensures
            final(self).input == old(self).input,
            final(self).chars == old(self).chars,
            final(self).tagstate == old(self).tagstate,
            match next_in(old(self).chars@, old(self).pos as int, skip_ws) {
                Some((c, q)) => r == Some(c) && final(self).pos == q,
                None => r is None,
            },
    {
        proof {
            use_type_invariant(&*self);
        }
        if skip_ws {
            self.char_at_pos_inc_pos_non_whitespace()
        } else {
            self.char_at_pos_inc_pos()
        }
    }

    /// Starting at `first`, collects characters until one at which `k` stops;
    /// returns them and that character.
    fn collect_until(&mut self, first: char, k: Stop, skip_ws: bool) -> (r: Option<
        (Vec<char>, char),
    >)
        ensures
            final(self).input == old(self).input,
            final(self).chars == old(self).chars,
            final(self).tagstate == old(self).tagstate,
            match collect(old(self).chars@, old(self).pos as int, first, k, skip_ws, seq![]) {
                Some((a, c, q)) => r matches Some((v, c2)) && v@ == a && c2 == c && final(self).pos
                    == q,
                None => r is None,
            },
    {
        proof {
            use_type_invariant(&*self);
        }
        let mut acc: Vec<char> = Vec::new();
        let mut this_char = first;
        while !stops_at(k, this_char)
            invariant
                self.input == old(self).input,
                self.chars == old(self).chars,
                self.tagstate == old(self).tagstate,
                collect(old(self).chars@, old(self).pos as int, first, k, skip_ws, seq![])
                    == collect(self.chars@, self.pos as int, this_char, k, skip_ws, acc@),
            decreases self.chars.len() - self.pos,
        {
            proof {
                lemma_next_in(self.chars@, self.pos as int, skip_ws);
            }
            acc.push(this_char);
            match self.next_char_in(skip_ws) {
                None => {
                    return None;
                },
                Some(c) => {
                    this_char = c;
                },
            }
        }
        Some((acc, this_char))
    }

    /// Past the end of a tag name or an attribute: skips white space, then a `/`.
    fn finish_tag(&mut self, c: char) -> (r: Option<char>)
        ensures
            final(self).input == old(self).input,
            final(self).chars == old(self).chars,
            final(self).tagstate == old(self).tagstate,
            match tag_end(old(self).chars@, old(self).pos as int, c) {
                Some((c2, q)) => r == Some(c2) && final(self).pos == q,
                None => r is None,
            },
    {
        proof {
            use_type_invariant(&*self);
        }
        let mut this_char = c;
        if is_whitespace(this_char) {
            match self.char_at_pos_inc_pos_non_whitespace() {
                None => {
                    return None;
                },
                Some(c2) => {
                    this_char = c2;
                },
            }
        }
        if this_char == '/' {
            self.char_at_pos_inc_pos()
        } else {
            Some(this_char)
        }
    }
}

impl Parser {
    /// Reads the event that starts outside of any tag: a start tag, an end
    /// tag or a text.
    fn read_outside_of_tag(&mut self) -> (r: Option<Event>)
        ensures
            final(self).input == old(self).input,
            final(self).chars == old(self).chars,
            match read_outside(old(self).chars@, old(self).pos as int) {
                Some((e, q, st)) => r matches Some(ev) && ev@ == e && final(self).pos == q
                    && final(self).tagstate == st,
                None => r is None,
            },
    {
        proof {
            use_type_invariant(&*self);
        }
        let mut this_char = match self.char_at_pos_inc_pos_non_whitespace() {
            None => {
                return None;
            },
            Some(c) => c,
        };
        if this_char == '<' {
            self.tagstate = TagState::InsideOfTag;
            proof {
                lemma_next_non_ws(self.chars@, self.pos as int);
            }
            this_char = match self.char_at_pos_inc_pos_non_whitespace() {
                None => {
                    return None;
                },
                Some(c) => c,
            };
            if this_char == '/' {
                this_char = match self.char_at_pos_inc_pos_non_whitespace() {
                    None => {
                        return None;
                    },
                    Some(c) => c,
                };
                let (elem_name, _last) = match self.collect_until(this_char, Stop::Gt, true) {
                    None => {
                        return None;
                    },
                    Some(found) => found,
                };
                self.tagstate = TagState::OutsideOfTag;
                Some(Event::EndElement(string_from_chars(elem_name)))
            } else {
                //read until space, / or >
                let ghost p2 = self.pos as int;
                let (elem_name, last) = match self.collect_until(this_char, Stop::NameEnd, false) {
                    None => {
                        return None;
                    },
                    Some(found) => found,
                };
                proof {
                    lemma_next_non_ws(old(self).chars@, old(self).pos as int);
                    lemma_collect(self.chars@, p2, this_char, Stop::NameEnd, false, seq![]);
                    lemma_tag_end(self.chars@, self.pos as int, last);
                }
                this_char = match self.finish_tag(last) {
                    None => {
                        return None;
                    },
                    Some(c) => c,
                };
                if this_char == '>' {
                    self.tagstate = TagState::OutsideOfTag;
                } else {
                    self.pos -= 1;
                    self.tagstate = TagState::Attributes;
                }
                Some(Event::StartElement(string_from_chars(elem_name)))
            }
        } else {
            // text element
            let ghost p1 = self.pos as int;
            proof {
                lemma_next_non_ws(old(self).chars@, old(self).pos as int);
            }
            let (text, _last) = match self.collect_until(this_char, Stop::Lt, false) {
                None => {
                    return None;
                },
                Some(found) => found,
            };
            proof {
                lemma_collect(self.chars@, p1, this_char, Stop::Lt, false, seq![]);
            }
            self.pos -= 1;
            self.tagstate = TagState::OutsideOfTag;
            //newline or whitespace in the middle is ok, but at the end is not ok.
            let text = trim_chars(&text);
            Some(Event::Text(string_from_chars(text)))
        }
    }

    /// Reads the next attribute of a start tag.
    fn read_attribute_of_tag(&mut self) -> (r: Option<Event>)
        ensures
            final(self).input == old(self).input,
            final(self).chars == old(self).chars,
            match read_attribute(old(self).chars@, old(self).pos as int) {
                Some((e, q, st)) => r matches Some(ev) && ev@ == e && final(self).pos == q
                    && final(self).tagstate == st,
                None => r is None,
            },
    {
        proof {
            use_type_invariant(&*self);
        }
        let this_char = match self.char_at_pos_inc_pos() {
            None => {
                return None;
            },
            Some(c) => c,
        };
        let (attr_name, this_char) = match self.collect_until(this_char, Stop::AttrNameEnd, false) {
            None => {
                return None;
            },
            Some(found) => found,
        };
        let (_skipped, this_char) = match self.collect_until(this_char, Stop::ValueStart, false) {
            None => {
                return None;
            },
            Some(found) => found,
        };
        let this_char = if this_char == '"' {
            match self.char_at_pos_inc_pos() {
                None => {
                    return None;
                },
                Some(c) => c,
            }
        } else {
            this_char
        };
        let (attr_value, _quote) = match self.collect_until(this_char, Stop::Quote, false) {
            None => {
                return None;
            },
            Some(found) => found,
        };
        let this_char = match self.char_at_pos_inc_pos() {
            None => {
                return None;
            },
            Some(c) => c,
        };
        proof {
            lemma_tag_end(self.chars@, self.pos as int, this_char);
        }
        let this_char = match self.finish_tag(this_char) {
            None => {
                return None;
            },
            Some(c) => c,
        };
        if this_char == '>' {
            self.tagstate = TagState::OutsideOfTag;
        } else {
            self.pos -= 1;
            self.tagstate = TagState::Attributes;
        }
        Some(Event::Attribute(string_from_chars(attr_name), string_from_chars(attr_value)))
    }

    /// Reads the next event. Where the text ends in the middle of an event the
    /// result is `None` and the reader is left as it was.
    pub fn try_read_event(&mut self) -> (r: Option<Event>)
        ensures
            match next_event(old(self)@) {
                Some((e, q, st)) => r matches Some(ev) && ev@ == e && final(self)@ == (ParserView {
                    pos: q,
                    tagstate: st,
                    ..old(self)@
                }),
                None => r is None && final(self)@ == old(self)@,
            },
    {
        proof {
            use_type_invariant(&*self);
        }
        if self.pos >= self.chars.len() {
            return Some(Event::Eof);
        }
        let saved_pos = self.pos;
        let saved_state = self.tagstate;
        let r = match self.tagstate {
            TagState::OutsideOfTag => self.read_outside_of_tag(),
            TagState::Attributes => self.read_attribute_of_tag(),
            TagState::InsideOfTag => {
                //cannot be inside if it was not started as outside
                return Some(Event::Eof);
            },
        };
        if r.is_none() {
            self.pos = saved_pos;
            self.tagstate = saved_state;
        }
        r
    }

    /// Reads the next event. The text must not end in the middle of it.
    pub fn read_event(&mut self) -> (ev: Event)
        requires
            next_event(old(self)@) is Some,
        ensures
            next_event(old(self)@) matches Some((e, q, st)) && ev@ == e && final(self)@ == (
            ParserView { pos: q, tagstate: st, ..old(self)@ }),
    {
        proof {
            use_type_invariant(&*self);
        }
        match self.try_read_event() {
            Some(ev) => ev,
            None => {
                proof {
                    assert(false);
                }
                Event::Eof
            },
        }
    }
}

/// Removes the comments of `text` by running the comment recognizer over it.
fn strip_comments_from(text: &Vec<char>) -> (out: Vec<char>)
    ensures
        out@ == strip_comments(CommentState::OutsideOfComment, text@),
{
    let mut new_input: Vec<char> = Vec::new();
    // xml comments looks like <!--  xxx -->
    let mut comment_state = CommentState::OutsideOfComment;
    let mut i: usize = 0;
    assert(text@.skip(0) =~= text@);
    assert(new_input@ + strip_comments(comment_state, text@) =~= strip_comments(
        CommentState::OutsideOfComment,
        text@,
    ));
    while i < text.len()
        invariant
            i <= text.len(),
            new_input@ + strip_comments(comment_state, text@.skip(i as int)) == strip_comments(
                CommentState::OutsideOfComment,
                text@,
            ),
        decreases text.len() - i,
    {
        let this_char = text[i];
        let ghost old_out = new_input@;
        let ghost old_state = comment_state;
        let ghost rest = text@.skip(i as int);
        match comment_state {
            CommentState::OutsideOfComment => {
                if this_char == '<' {
                    comment_state = CommentState::StartDelim1;
                } else {
                    new_input.push(this_char);
                }
            },
            CommentState::StartDelim1 => {
                if this_char == '!' {
                    comment_state = CommentState::StartDelim2;
                } else {
                    comment_state = CommentState::OutsideOfComment;
                    new_input.push('<');
                    new_input.push(this_char);
                }
            },
            CommentState::StartDelim2 => {
                if this_char == '-' {
                    comment_state = CommentState::StartDelim3;
                } else {
                    comment_state = CommentState::OutsideOfComment;
                    new_input.push('<');
                    new_input.push('!');
                    new_input.push(this_char);
                }
            },
            CommentState::StartDelim3 => {
                if this_char == '-' {
                    comment_state = CommentState::InsideOfComment;
                } else {
                    comment_state = CommentState::OutsideOfComment;
                    new_input.push('<');
                    new_input.push('!');
                    new_input.push('-');
                    new_input.push(this_char);
                }
            },
            CommentState::InsideOfComment => {
                if this_char == '-' {
                    comment_state = CommentState::EndDelim1;
                }
            },
            CommentState::EndDelim1 => {
                if this_char == '-' {
                    comment_state = CommentState::EndDelim2;
                } else {
                    comment_state = CommentState::InsideOfComment;
                }
            },
            CommentState::EndDelim2 => {
                if this_char == '>' {
                    comment_state = CommentState::OutsideOfComment;
                } else {
                    comment_state = CommentState::InsideOfComment;
                }
            },
        }
        proof {
            let step = comment_step(old_state, rest[0]);
            assert(rest[0] == this_char);
            assert(step.0 == comment_state);
            assert(new_input@ =~= old_out + step.1);
            assert(rest.drop_first() =~= text@.skip(i + 1));
            assert(old_out + (step.1 + strip_comments(step.0, rest.drop_first())) =~= new_input@
                + strip_comments(comment_state, text@.skip(i + 1)));
        }
        i += 1;
    }
    match comment_state {
        CommentState::StartDelim1 => {
            new_input.push('<');
        },
        CommentState::StartDelim2 => {
            new_input.push('<');
            new_input.push('!');
        },
        CommentState::StartDelim3 => {
            new_input.push('<');
            new_input.push('!');
            new_input.push('-');
        },
        _ => {},
    }
    assert(text@.skip(i as int) =~= Seq::<char>::empty());
    new_input
}

/// A reader made from the text `s` reads at most one event per character of
/// `s` before its `Eof`, and every event it reads is well shaped.
pub proof fn law_reader_events_bounded_by_input(s: Seq<char>)
    ensures
        events_from(ParserView { input: normalized(s), pos: 0, tagstate: TagState::OutsideOfTag })
            matches Some(evs) ==> evs.len() <= s.len() + 1 && forall|i: int|
            0 <= i < evs.len() ==> well_shaped(#[trigger] evs[i]),
{
    law_normalized_not_longer(s);
    law_events_bounded(
        ParserView { input: normalized(s), pos: 0, tagstate: TagState::OutsideOfTag },
    );
}

/// The sample fragment read by `test_my_parser`.
pub const SAMPLE_FRAGMENT: &'static str = r#"
    <div id="my_project">
        firstdiv
        <h1 id="hello"> hahahah5555 </h1>
        <!-- comment -->
        <h2 id="lala"> lalala
        uhuhuh 
        </h2>
        testfromdiv
    </div>
         "#;

/// `events` in front of the events of `rest`, where there are any.
pub open spec fn prepend_events(events: Seq<EventView>, rest: Option<Seq<EventView>>) -> Option<
    Seq<EventView>,
> {
    match rest {
        None => None,
        Some(r) => Some(events + r),
    }
}

/// The views of a list of events.
pub open spec fn event_views(events: Seq<Event>) -> Seq<EventView> {
    events.map_values(|e: Event| e@)
}

/// Reads all the events of the sample fragment, `Eof` included, for the
/// caller to show them.
pub fn test_my_parser() -> (events: Option<Vec<Event>>)
    ensures
        match events_from(
            ParserView {
                input: normalized(SAMPLE_FRAGMENT@),
                pos: 0,
                tagstate: TagState::OutsideOfTag,
            },
        ) {
            Some(all) => events matches Some(v) && event_views(v@) == all,
            None => events is None,
        },
{
    let input = SAMPLE_FRAGMENT;
    let mut pp = Parser::new(input);
    let ghost start = pp@;
    let mut events: Vec<Event> = Vec::new();
    assert(event_views(events@) + Seq::<EventView>::empty() =~= Seq::<EventView>::empty());
    assert(prepend_events(event_views(events@), events_from(pp@)) =~= events_from(pp@)) by {
        if let Some(r) = events_from(pp@) {
            assert(event_views(events@) + r =~= r);
        }
    }
    loop
        invariant
            pp@.input == start.input,
            pp@.pos >= 0,
            start == (ParserView {
                input: normalized(SAMPLE_FRAGMENT@),
                pos: 0,
                tagstate: TagState::OutsideOfTag,
            }),
            events_from(start) == prepend_events(event_views(events@), events_from(pp@)),
        decreases pp.chars.len() - pp.pos,
    {
        let ghost before = pp@;
        let ghost before_views = event_views(events@);
        proof {
            use_type_invariant(&pp);
            law_event_moves_forward(before);
        }
        match pp.try_read_event() {
            None => {
                return None;
            },
            Some(ev) => {
                let done = match ev {
                    Event::Eof => true,
                    _ => false,
                };
                events.push(ev);
                assert(event_views(events@) =~= before_views.push(ev@));
                if done {
                    assert(events_from(before) == Some(seq![ev@]));
                    assert(before_views + seq![ev@] =~= before_views.push(ev@));
                    return Some(events);
                }
                proof {
                    use_type_invariant(&pp);
                    let after = pp@;
                    assert(events_from(before) == prepend_events(seq![ev@], events_from(after)));
                    match events_from(after) {
                        None => {},
                        Some(r) => {
                            assert(before_views + (seq![ev@] + r) =~= before_views.push(ev@)
                                + r);
                        },
                    }
                }
            },
        }
    }
}

} // verus!
