//! Console commands for the display: `clear`, `sleep`, `wake`, and
//! `<word> <x> <y> <text...>` to write text.

use vstd::prelude::*;
use vstd::string::StrSliceExecFns;
use vstd::string::StringExecFns;
use crate::chars::chars_of;

verus! {

/// A command read from the console.
#[derive(Debug, PartialEq, Eq)]
pub enum IoEvent {
    /// A line that is no command.
    NoOp,
    Clear,
    Sleep,
    Wake,
    /// Write the text at column `x`, row `y`.
    Write(usize, usize, String),
}

/// What an `IoEvent` is, with its text as characters.
pub ghost enum EventModel {
    NoOp,
    Clear,
    Sleep,
    Wake,
    Write(usize, usize, Seq<char>),
}

impl View for IoEvent {
    type V = EventModel;

    open spec fn view(&self) -> EventModel {
        match self {
            IoEvent::NoOp => EventModel::NoOp,
            IoEvent::Clear => EventModel::Clear,
            IoEvent::Sleep => EventModel::Sleep,
            IoEvent::Wake => EventModel::Wake,
            IoEvent::Write(x, y, text) => EventModel::Write(*x, *y, text@),
        }
    }
}

/// The characters that `char::is_whitespace` accepts: those with the
/// Unicode `White_Space` property.
pub open spec fn is_whitespace(c: char) -> bool {
    ||| '\t' <= c && c <= '\r'
    ||| c == ' '
    ||| c == '\u{85}'
    ||| c == '\u{a0}'
    ||| c == '\u{1680}'
    ||| '\u{2000}' <= c && c <= '\u{200a}'
    ||| c == '\u{2028}'
    ||| c == '\u{2029}'
    ||| c == '\u{202f}'
    ||| c == '\u{205f}'
    ||| c == '\u{3000}'
}

/// The words of `s`, after a word `cur` that has begun: maximal runs of
/// characters that are not whitespace.
pub open spec fn split_words(s: Seq<char>, cur: Seq<char>) -> Seq<Seq<char>>
    decreases s.len(),
{
    if s.len() == 0 {
        if cur.len() > 0 {
            seq![cur]
        } else {
            Seq::empty()
        }
    } else if is_whitespace(s[0]) {
        (if cur.len() > 0 {
            seq![cur]
        } else {
            Seq::empty()
        }) + split_words(s.drop_first(), Seq::empty())
    } else {
        split_words(s.drop_first(), cur.push(s[0]))
    }
}

/// The words of a line, as `str::split_whitespace` gives them.
pub open spec fn words(s: Seq<char>) -> Seq<Seq<char>> {
    split_words(s, Seq::empty())
}

/// Value of a string of decimal digits.
pub open spec fn digits_value(s: Seq<char>) -> int
    decreases s.len(),
{
    if s.len() == 0 {
        0
    } else {
        digits_value(s.drop_last()) * 10 + (s.last() as int - '0' as int)
    }
}

pub open spec fn is_digit(c: char) -> bool {
    '0' <= c && c <= '9'
}

pub open spec fn all_digits(s: Seq<char>) -> bool {
    forall|i: int| 0 <= i < s.len() ==> is_digit(#[trigger] s[i])
}

/// What `str::parse::<usize>` gives: an optional `+` followed by at least one
/// decimal digit, whose value fits in `usize`.
pub open spec fn parse_usize(s: Seq<char>) -> Option<usize> {
    let d = if s.len() > 0 && s[0] == '+' {
        s.drop_first()
    } else {
        s
    };
    if d.len() > 0 && all_digits(d) && digits_value(d) <= usize::MAX {
        Some(digits_value(d) as usize)
    } else {
        None
    }
}

/// Words joined by single spaces.
pub open spec fn join_words(ws: Seq<Seq<char>>) -> Seq<char>
    decreases ws.len(),
{
    if ws.len() == 0 {
        Seq::empty()
    } else if ws.len() == 1 {
        ws[0]
    } else {
        join_words(ws.drop_last()) + seq![' '] + ws.last()
    }
}

pub open spec fn clear_word() -> Seq<char> {
    seq!['c', 'l', 'e', 'a', 'r']
}

pub open spec fn sleep_word() -> Seq<char> {
    seq!['s', 'l', 'e', 'e', 'p']
}

pub open spec fn wake_word() -> Seq<char> {
    seq!['w', 'a', 'k', 'e']
}

/// The command a console line stands for: one word naming a command; or
/// three words or more of which the second and third are numbers, the rest
/// joined by single spaces being the text; anything else is no command.
pub open spec fn event_of(line: Seq<char>) -> EventModel {
    let parts = words(line);
    if parts.len() == 1 {
        if parts[0] == clear_word() {
            EventModel::Clear
        } else if parts[0] == sleep_word() {
            EventModel::Sleep
        } else if parts[0] == wake_word() {
            EventModel::Wake
        } else {
            EventModel::NoOp
        }
    } else if parts.len() >= 3 && parse_usize(parts[1]) is Some && parse_usize(parts[2]) is Some {
        EventModel::Write(
            parse_usize(parts[1])->0,
            parse_usize(parts[2])->0,
            join_words(parts.skip(3)),
        )
    } else {
        EventModel::NoOp
    }
}


/// The words that the spans `spans` cut out of `s`.
pub open spec fn span_words(s: Seq<char>, spans: Seq<(usize, usize)>) -> Seq<Seq<char>> {
    Seq::new(spans.len(), |k: int| s.subrange(spans[k].0 as int, spans[k].1 as int))
}

pub(crate) fn is_whitespace_char(c: char) -> (r: bool)
    ensures
        r == is_whitespace(c),
{
    ('\t' <= c && c <= '\r') || c == ' ' || c == '\u{85}' || c == '\u{a0}' || c == '\u{1680}'
        || ('\u{2000}' <= c && c <= '\u{200a}') || c == '\u{2028}' || c == '\u{2029}' || c
        == '\u{202f}' || c == '\u{205f}' || c == '\u{3000}'
}

/// The spans of the words of `chars`, in order.
fn split_spans(chars: &Vec<char>) -> (spans: Vec<(usize, usize)>)
    ensures
        span_words(chars@, spans@) == words(chars@),
        forall|k: int|
            0 <= k < spans@.len() ==> (#[trigger] spans@[k]).0 < spans@[k].1 <= chars@.len(),
{
    let mut spans: Vec<(usize, usize)> = Vec::new();
    let mut in_word = false;
    let mut start: usize = 0;
    let mut i: usize = 0;
    assert(chars@.skip(0) =~= chars@);
    while i < chars.len()
        invariant
            0 <= i <= chars@.len(),
            in_word ==> start < i,
            words(chars@) == span_words(chars@, spans@) + split_words(
                chars@.skip(i as int),
                if in_word {
                    chars@.subrange(start as int, i as int)
                } else {
                    Seq::empty()
                },
            ),
            forall|k: int|
                0 <= k < spans@.len() ==> (#[trigger] spans@[k]).0 < spans@[k].1 <= chars@.len(),
        decreases chars@.len() - i,
    {
        let c = chars[i];
        let ghost rest = chars@.skip(i as int);
        let ghost cur = if in_word {
            chars@.subrange(start as int, i as int)
        } else {
            Seq::<char>::empty()
        };
        proof {
            assert(rest[0] == c);
            assert(rest.drop_first() =~= chars@.skip(i + 1));
        }
        if is_whitespace_char(c) {
            if in_word {
                let ghost old_spans = spans@;
                spans.push((start, i));
                assert(span_words(chars@, spans@) =~= span_words(chars@, old_spans).push(cur));
                assert(span_words(chars@, old_spans) + seq![cur] =~= span_words(chars@, old_spans).push(cur));
            } else {
                assert(span_words(chars@, spans@) + Seq::<Seq<char>>::empty() =~= span_words(chars@, spans@));
            }
            in_word = false;
        } else {
            if !in_word {
                start = i;
                in_word = true;
                assert(chars@.subrange(i as int, i + 1) =~= Seq::<char>::empty().push(c));
            } else {
                assert(chars@.subrange(start as int, i + 1) =~= cur.push(c));
            }
        }
        i += 1;
    }
    proof {
        assert(chars@.skip(i as int) =~= Seq::<char>::empty());
    }
    if in_word {
        let ghost old_spans = spans@;
        let ghost cur = chars@.subrange(start as int, i as int);
        spans.push((start, i));
        assert(span_words(chars@, spans@) =~= span_words(chars@, old_spans).push(cur));
        assert(span_words(chars@, old_spans) + seq![cur] =~= span_words(chars@, old_spans).push(cur));
    } else {
        assert(span_words(chars@, spans@) + Seq::<Seq<char>>::empty() =~= span_words(chars@, spans@));
    }
    spans
}

/// The value of a prefix of a string of digits is at most the value of the
/// whole string.
proof fn lemma_digits_prefix(s: Seq<char>, j: int)
    requires
        all_digits(s),
        0 <= j <= s.len(),
    ensures
        0 <= digits_value(s.take(j)) <= digits_value(s),
    decreases s.len(),
{
    if s.len() > 0 {
        let t = s.drop_last();
        assert(all_digits(t)) by {
            assert forall|i: int| 0 <= i < t.len() implies is_digit(#[trigger] t[i]) by {
                assert(t[i] == s[i]);
            }
        }
        assert(is_digit(s[s.len() - 1]));
        if j < s.len() {
            assert(s.take(j) =~= t.take(j));
            lemma_digits_prefix(t, j);
        } else {
            assert(s.take(j) =~= s);
            lemma_digits_prefix(t, t.len() as int);
            assert(t.take(t.len() as int) =~= t);
        }
    } else {
        assert(s.take(j) =~= s);
    }
}

/// The number that the characters `chars[a..b]` spell, if they spell one.
fn parse_span(chars: &Vec<char>, a: usize, b: usize) -> (r: Option<usize>)
    requires
        a <= b <= chars@.len(),
    ensures
        r == parse_usize(chars@.subrange(a as int, b as int)),
{
    let ghost s = chars@.subrange(a as int, b as int);
    let mut i = a;
    if i < b && chars[i] == '+' {
        i += 1;
    }
    let ghost d = if s.len() > 0 && s[0] == '+' {
        s.drop_first()
    } else {
        s
    };
    assert(d =~= chars@.subrange(i as int, b as int));
    if i == b {
        return None;
    }
    let ds = i;
    let mut v: usize = 0;
    while i < b
        invariant
            ds <= i <= b <= chars@.len(),
            d == chars@.subrange(ds as int, b as int),
            d.len() > 0,
            s == chars@.subrange(a as int, b as int),
            d == (if s.len() > 0 && s[0] == '+' {
                s.drop_first()
            } else {
                s
            }),
            all_digits(d.take(i - ds)),
            v == digits_value(d.take(i - ds)),
        decreases b - i,
    {
        let c = chars[i];
        assert(d[i - ds] == c);
        if !('0' <= c && c <= '9') {
            assert(!all_digits(d));
            return None;
        }
        let digit = (c as usize) - ('0' as usize);
        let ghost next = d.take(i - ds + 1);
        assert(next.drop_last() =~= d.take(i - ds));
        assert(next.last() == c);
        assert(all_digits(next)) by {
            assert forall|k: int| 0 <= k < next.len() implies is_digit(#[trigger] next[k]) by {
                if k < i - ds {
                    assert(next[k] == d.take(i - ds)[k]);
                }
            }
        }
        match v.checked_mul(10) {
            Some(t) => {
                match t.checked_add(digit) {
                    Some(n) => {
                        v = n;
                    },
                    None => {
                        proof {
                            if all_digits(d) {
                                lemma_digits_prefix(d, i - ds + 1);
                            }
                        }
                        return None;
                    },
                }
            },
            None => {
                proof {
                    if all_digits(d) {
                        lemma_digits_prefix(d, i - ds + 1);
                    }
                }
                return None;
            },
        }
        i += 1;
    }
    assert(d.take(i - ds) =~= d);
    Some(v)
}

/// Whether `chars[a..b]` is the word `w`.
fn span_is(chars: &Vec<char>, a: usize, b: usize, w: &Vec<char>) -> (r: bool)
    requires
        a <= b <= chars@.len(),
    ensures
        r == (chars@.subrange(a as int, b as int) == w@),
{
    if b - a != w.len() {
        return false;
    }
    let mut k: usize = 0;
    while k < w.len()
        invariant
            a <= b <= chars@.len(),
            b - a == w@.len(),
            0 <= k <= w@.len(),
            forall|j: int| 0 <= j < k ==> chars@[a + j] == w@[j],
        decreases w@.len() - k,
    {
        if chars[a + k] != w[k] {
            assert(chars@.subrange(a as int, b as int)[k as int] != w@[k as int]);
            return false;
        }
        k += 1;
    }
    assert(chars@.subrange(a as int, b as int) =~= w@);
    true
}

proof fn lemma_split_words_trailing(s: Seq<char>, cur: Seq<char>, c: char)
    requires
        is_whitespace(c),
    ensures
        split_words(s.push(c), cur) == split_words(s, cur),
    decreases s.len(),
{
    let t = s.push(c);
    if s.len() == 0 {
        assert(t.drop_first() =~= Seq::<char>::empty());
        assert(t[0] == c);
        let head: Seq<Seq<char>> = if cur.len() > 0 { seq![cur] } else { Seq::empty() };
        assert(split_words(Seq::<char>::empty(), Seq::<char>::empty()) == Seq::<Seq<char>>::empty());
        assert(head + Seq::<Seq<char>>::empty() =~= head);
        assert(split_words(t, cur) == head + split_words(t.drop_first(), Seq::<char>::empty()));
    } else {
        assert(t.drop_first() =~= s.drop_first().push(c));
        assert(t[0] == s[0]);
        if is_whitespace(s[0]) {
            lemma_split_words_trailing(s.drop_first(), Seq::empty(), c);
        } else {
            lemma_split_words_trailing(s.drop_first(), cur.push(s[0]), c);
        }
    }
}

/// Only whitespace separates words: no printable ASCII character other than
/// the space is whitespace, and the space, tab, line feed and carriage
/// return are.
pub proof fn law_printable_ascii_is_not_whitespace(c: char)
    ensures
        ('!' <= c && c <= '~') ==> !is_whitespace(c),
        is_whitespace(' '),
        is_whitespace('\t'),
        is_whitespace('\n'),
        is_whitespace('\r'),
{
}

/// The whitespace characters are exactly the Unicode `White_Space` code
/// points: U+0009 to U+000D, U+0020, U+0085, U+00A0, U+1680, U+2000 to
/// U+200A, U+2028, U+2029, U+202F, U+205F and U+3000.
pub proof fn law_whitespace_code_points(c: char)
    ensures
        is_whitespace(c) <==> {
            let n = c as int;
            ||| 9 <= n <= 13
            ||| n == 32
            ||| n == 0x85
            ||| n == 0xa0
            ||| n == 0x1680
            ||| 0x2000 <= n <= 0x200a
            ||| n == 0x2028
            ||| n == 0x2029
            ||| n == 0x202f
            ||| n == 0x205f
            ||| n == 0x3000
        },
{
}

/// A line with no whitespace in it is a single word, whole.
pub proof fn law_word_without_whitespace_is_whole(s: Seq<char>)
    requires
        s.len() > 0,
        forall|i: int| 0 <= i < s.len() ==> !is_whitespace(#[trigger] s[i]),
    ensures
        words(s) == seq![s],
{
    lemma_split_no_whitespace(s, Seq::empty());
    assert(Seq::<char>::empty() + s =~= s);
}

proof fn lemma_split_no_whitespace(s: Seq<char>, cur: Seq<char>)
    requires
        cur.len() + s.len() > 0,
        forall|i: int| 0 <= i < s.len() ==> !is_whitespace(#[trigger] s[i]),
    ensures
        split_words(s, cur) == seq![cur + s],
    decreases s.len(),
{
    if s.len() == 0 {
        assert(cur + s =~= cur);
    } else {
        assert(!is_whitespace(s[0]));
        let t = s.drop_first();
        assert forall|i: int| 0 <= i < t.len() implies !is_whitespace(#[trigger] t[i]) by {
            assert(t[i] == s[i + 1]);
        }
        lemma_split_no_whitespace(t, cur.push(s[0]));
        assert(cur.push(s[0]) + t =~= cur + s);
    }
}

/// A line has no words exactly when every character of it is whitespace.
pub proof fn law_no_words_iff_all_whitespace(s: Seq<char>)
    ensures
        words(s).len() == 0 <==> (forall|i: int| 0 <= i < s.len() ==> is_whitespace(#[trigger] s[i])),
{
    lemma_split_empty(s, Seq::empty());
}

proof fn lemma_split_empty(s: Seq<char>, cur: Seq<char>)
    ensures
        split_words(s, cur).len() == 0 <==> (cur.len() == 0 && forall|i: int|
            0 <= i < s.len() ==> is_whitespace(#[trigger] s[i])),
    decreases s.len(),
{
    if s.len() > 0 {
        let t = s.drop_first();
        if is_whitespace(s[0]) {
            lemma_split_empty(t, Seq::empty());
        } else {
            lemma_split_empty(t, cur.push(s[0]));
        }
        assert((forall|i: int| 0 <= i < s.len() ==> is_whitespace(#[trigger] s[i])) <==> (
        is_whitespace(s[0]) && forall|i: int| 0 <= i < t.len() ==> is_whitespace(#[trigger] t[i])))
            by {
            if is_whitespace(s[0]) && forall|i: int| 0 <= i < t.len() ==> is_whitespace(#[trigger] t[i]) {
                assert forall|i: int| 0 <= i < s.len() implies is_whitespace(#[trigger] s[i]) by {
                    if i > 0 {
                        assert(s[i] == t[i - 1]);
                    }
                }
            }
            if forall|i: int| 0 <= i < s.len() ==> is_whitespace(#[trigger] s[i]) {
                assert forall|i: int| 0 <= i < t.len() implies is_whitespace(#[trigger] t[i]) by {
                    assert(t[i] == s[i + 1]);
                }
            }
        }
    }
}

/// Whitespace around a line does not change the command it stands for.
pub proof fn law_surrounding_whitespace_is_ignored(line: Seq<char>, c: char)
    requires
        is_whitespace(c),
    ensures
        event_of(seq![c] + line) == event_of(line),
        event_of(line.push(c)) == event_of(line),
{
    let t = seq![c] + line;
    assert(t[0] == c);
    assert(t.drop_first() =~= line);
    assert(Seq::<Seq<char>>::empty() + split_words(line, Seq::empty()) =~= split_words(line, Seq::empty()));
    assert(words(t) == words(line));
    lemma_split_words_trailing(line, Seq::empty(), c);
}

impl IoEvent {
    /// The command that a console line stands for (see `event_of`).
    pub fn new(line: &String) -> (ev: IoEvent)
        ensures
            ev@ == event_of(line@),
    {
        let text = line.as_str();
        let chars = chars_of(text);
        let spans = split_spans(&chars);
        let ghost parts = words(line@);
        let len = spans.len();
        proof {
            assert(span_words(chars@, spans@).len() == parts.len());
        }

        if len == 0 {
            return IoEvent::NoOp;
        }

        if len == 1 {
            let (a, b) = spans[0];
            assert(chars@.subrange(a as int, b as int) == parts[0]);
            if span_is(&chars, a, b, &vec!['c', 'l', 'e', 'a', 'r']) {
                return IoEvent::Clear;
            }
            if span_is(&chars, a, b, &vec!['s', 'l', 'e', 'e', 'p']) {
                return IoEvent::Sleep;
            }
            if span_is(&chars, a, b, &vec!['w', 'a', 'k', 'e']) {
                return IoEvent::Wake;
            }
            return IoEvent::NoOp;
        }

        if len >= 3 {
            let (a1, b1) = spans[1];
            let (a2, b2) = spans[2];
            assert(chars@.subrange(a1 as int, b1 as int) == parts[1]);
            assert(chars@.subrange(a2 as int, b2 as int) == parts[2]);
            let px = parse_span(&chars, a1, b1);
            let py = parse_span(&chars, a2, b2);
            if let (Some(x), Some(y)) = (px, py) {
                let ghost rest = parts.skip(3);
                let mut joined = String::new();
                let mut k: usize = 3;
                proof {
                    reveal_strlit(" ");
                    assert(rest.take(0) =~= Seq::<Seq<char>>::empty());
                }
                while k < len
                    invariant
                        3 <= k <= len,
                        len == spans@.len(),
                        len == parts.len(),
                        rest == parts.skip(3),
                        chars@ == text@,
                        text@ == line@,
                        parts == words(line@),
                        span_words(chars@, spans@) == parts,
                        forall|j: int|
                            0 <= j < spans@.len() ==> (#[trigger] spans@[j]).0 < spans@[j].1
                                <= chars@.len(),
                        joined@ == join_words(rest.take(k - 3)),
                    decreases len - k,
                {
                    let (a, b) = spans[k];
                    let word = text.substring_char(a, b);
                    assert(word@ == parts[k as int]);
                    let ghost taken = rest.take(k - 3 + 1);
                    assert(taken.drop_last() =~= rest.take(k - 3));
                    assert(taken.last() == parts[k as int]);
                    let ghost before = joined@;
                    if k > 3 {
                        proof {
                            reveal_strlit(" ");
                        }
                        joined.append(" ");
                        assert(joined@ =~= before + seq![' ']);
                    }
                    joined.append(word);
                    proof {
                        if k == 3 {
                            assert(rest.take(0) =~= Seq::<Seq<char>>::empty());
                            assert(joined@ =~= taken[0]);
                        } else {
                            assert(joined@ =~= join_words(taken.drop_last()) + seq![' '] + taken.last());
                        }
                    }
                    k += 1;
                }
                assert(rest.take(len - 3) =~= rest);
                return IoEvent::Write(x, y, joined);
            }
        }

        IoEvent::NoOp
    }
}

} // verus!
