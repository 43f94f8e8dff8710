use vstd::prelude::*;
use crate::location::{Location, LocationView};

verus! {

/// Unicode `White_Space`, the characters that `\s` and `char::is_whitespace` accept.
pub open spec fn is_white_space(c: char) -> bool {
    let u = c as u32;
    (9 <= u && u <= 13) || u == 32 || u == 0x85 || u == 0xa0 || u == 0x1680
        || (0x2000 <= u && u <= 0x200a) || u == 0x2028 || u == 0x2029 || u == 0x202f
        || u == 0x205f || u == 0x3000
}

pub fn white_space(c: char) -> (r: bool)
    ensures
        r == is_white_space(c),
{
    let u = c as u32;
    (9 <= u && u <= 13) || u == 32 || u == 0x85 || u == 0xa0 || u == 0x1680
        || (0x2000 <= u && u <= 0x200a) || u == 0x2028 || u == 0x2029 || u == 0x202f
        || u == 0x205f || u == 0x3000
}

pub open spec fn is_digit(c: char) -> bool {
    48 <= c as u32 && c as u32 <= 57
}

pub open spec fn digit_value(c: char) -> nat {
    (c as u32 - 48) as nat
}

/// The number that a run of decimal digits spells.
pub open spec fn digits_value(d: Seq<char>) -> nat
    decreases d.len(),
{
    if d.len() == 0 {
        0
    } else {
        digits_value(d.drop_last()) * 10 + digit_value(d.last())
    }
}

/// Whether `c` is a decimal digit of any script (Unicode `Nd`, what `\d` matches).
pub uninterp spec fn is_decimal_digit(c: char) -> bool;

/// Whether every character of `d` is an ASCII digit.
pub open spec fn all_ascii_digits(d: Seq<char>) -> bool {
    forall|i: int| 0 <= i < d.len() ==> is_digit(d[i])
}

/// An ASCII digit, or a decimal digit of another script.
pub open spec fn is_any_digit(c: char) -> bool {
    is_digit(c) || is_decimal_digit(c)
}

/// How many decimal digits, of any script, `s` starts with.
pub open spec fn digit_prefix_len(s: Seq<char>) -> nat
    decreases s.len(),
{
    if s.len() > 0 && is_any_digit(s[0]) {
        1 + digit_prefix_len(s.drop_first())
    } else {
        0
    }
}

pub open spec fn trim_start(s: Seq<char>) -> Seq<char>
    decreases s.len(),
{
    if s.len() > 0 && is_white_space(s[0]) {
        trim_start(s.drop_first())
    } else {
        s
    }
}

pub open spec fn trim_end(s: Seq<char>) -> Seq<char>
    decreases s.len(),
{
    if s.len() > 0 && is_white_space(s.last()) {
        trim_end(s.drop_last())
    } else {
        s
    }
}

/// `s` without white space at either end.
pub open spec fn trim(s: Seq<char>) -> Seq<char> {
    trim_end(trim_start(s))
}

pub open spec fn is_first_colon(s: Seq<char>, i: int) -> bool {
    0 <= i < s.len() && s[i] == ':' && forall|j: int| 0 <= j < i ==> s[j] != ':'
}

/// A heading of the form `<region>: <organization>`: the region is what stands
/// before the first colon, the organization what follows it, both trimmed. The
/// colon is followed by white space, and neither part is empty.
pub open spec fn label_parts(s: Seq<char>) -> Option<(Seq<char>, Seq<char>)> {
    if exists|i: int| is_first_colon(s, i) {
        let i = choose|i: int| is_first_colon(s, i);
        let region = trim(s.subrange(0, i));
        let rest = s.subrange(i + 1, s.len() as int);
        if region.len() > 0 && rest.len() > 0 && is_white_space(rest[0]) && trim(rest).len() > 0 {
            Some((region, trim(rest)))
        } else {
            None
        }
    } else {
        None
    }
}

/// An annotation of the form `(<digits>...`, after optional white space: the
/// run of decimal digits, of any script, that follows the parenthesis.
pub open spec fn annotation_digits(s: Seq<char>) -> Option<Seq<char>> {
    let t = trim_start(s);
    if t.len() >= 2 && t[0] == '(' && is_any_digit(t[1]) {
        Some(t.subrange(1, 1 + digit_prefix_len(t.drop_first()) as int))
    } else {
        None
    }
}

/// The first leading index of `s` that is not white space.
fn skip_white_space(s: &str) -> (a: usize)
    ensures
        a <= s@.len(),
        trim_start(s@) == s@.subrange(a as int, s@.len() as int),
{
    let n = s.unicode_len();
    let mut a: usize = 0;
    assert(s@.subrange(0, n as int) =~= s@);
    while a < n && white_space(s.get_char(a))
        invariant
            a <= n,
            n == s@.len(),
            trim_start(s@.subrange(a as int, n as int)) == trim_start(s@),
        decreases n - a,
    {
        assert(s@.subrange(a as int, n as int).drop_first() =~= s@.subrange(a + 1, n as int));
        a += 1;
    }
    a
}

/// `s` without white space at either end.
pub fn trimmed(s: &str) -> (r: String)
    ensures
        r@ == trim(s@),
{
    let n = s.unicode_len();
    let a = skip_white_space(s);
    let mut b: usize = n;
    while b > a && white_space(s.get_char(b - 1))
        invariant
            a <= b <= n,
            n == s@.len(),
            trim_start(s@) == s@.subrange(a as int, n as int),
            trim_end(s@.subrange(a as int, b as int)) == trim(s@),
        decreases b,
    {
        assert(s@.subrange(a as int, b as int).drop_last() =~= s@.subrange(a as int, b - 1));
        b -= 1;
    }
    String::from_str(s.substring_char(a, b))
}

/// Splits a heading into region and organization, as [`label_parts`] says.
pub fn parse_label(s: &str) -> (r: Option<(String, String)>)
    ensures
        match r {
            Some(p) => label_parts(s@) == Some((p.0@, p.1@)),
            None => label_parts(s@) is None,
        },
{
    let n = s.unicode_len();
    let mut i: usize = 0;
    while i < n && s.get_char(i) != ':'
        invariant
            i <= n,
            n == s@.len(),
            forall|j: int| 0 <= j < i ==> s@[j] != ':',
        decreases n - i,
    {
        i += 1;
    }
    if i == n {
        assert(!exists|k: int| is_first_colon(s@, k));
        return None;
    }
    assert(is_first_colon(s@, i as int));
    let ghost c = choose|k: int| is_first_colon(s@, k);
    assert(c == i) by {
        if c < i {
            assert(s@[c] != ':');
        } else if c > i {
            assert(s@[i as int] != ':');
        }
    }
    let region = trimmed(s.substring_char(0, i));
    let rest = s.substring_char(i + 1, n);
    if region.unicode_len() == 0 || rest.unicode_len() == 0 || !white_space(rest.get_char(0)) {
        return None;
    }
    let organization = trimmed(rest);
    if organization.unicode_len() == 0 {
        return None;
    }
    Some((region, organization))
}

pub fn digit(c: char) -> (r: bool)
    ensures
        r == is_digit(c),
{
    48 <= c as u32 && c as u32 <= 57
}

/// Relies on the regex crate's `\d`, which matches the Unicode class `Nd`:
/// whether `c` is a decimal digit of some script.
#[verifier::external_body]
fn decimal_digit(c: char) -> (r: bool)
    ensures
        r == is_decimal_digit(c),
{
    regex::Regex::new(r"\A\d\z").is_ok_and(|re| re.is_match(c.encode_utf8(&mut [0u8; 4])))
}

/// An ASCII digit, or a decimal digit of another script.
fn any_digit(c: char) -> (r: bool)
    ensures
        r == is_any_digit(c),
{
    digit(c) || decimal_digit(c)
}

/// A run of digits never spells less than any of its prefixes.
proof fn lemma_digits_value_prefix(d: Seq<char>, k: int)
    requires
        0 <= k <= d.len(),
    ensures
        digits_value(d.subrange(0, k)) <= digits_value(d),
    decreases d.len() - k,
{
    if k < d.len() {
        lemma_digits_value_prefix(d, k + 1);
        assert(d.subrange(0, k + 1).drop_last() =~= d.subrange(0, k));
    } else {
        assert(d.subrange(0, k) =~= d);
    }
}

proof fn lemma_digit_prefix_len_bound(s: Seq<char>)
    ensures
        digit_prefix_len(s) <= s.len(),
    decreases s.len(),
{
    if s.len() > 0 && is_any_digit(s[0]) {
        lemma_digit_prefix_len_bound(s.drop_first());
    }
}

/// Why a block that matched the grammar still yields no record.
#[derive(Debug, Clone, Copy, PartialEq, Eq, Structural)]
pub enum ParseError {
    /// The digits of the annotation are not a `u64` in ASCII digits: they
    /// spell a larger number, or belong to another script.
    InvalidCount,
}

/// The count that an annotation gives: `None` where it does not match the
/// grammar, an error where its digits are not a `u64` in ASCII digits.
pub fn parse_annotation(s: &str) -> (r: Option<Result<u64, ParseError>>)
    ensures
        match annotation_digits(s@) {
            None => r is None,
            Some(d) => if all_ascii_digits(d) && digits_value(d) <= u64::MAX {
                r == Some(Ok::<u64, ParseError>(digits_value(d) as u64))
            } else {
                r == Some(Err::<u64, ParseError>(ParseError::InvalidCount))
            },
        },
{
    let n = s.unicode_len();
    let a = skip_white_space(s);
    let ghost t = s@.subrange(a as int, n as int);
    if n < 2 || a > n - 2 || s.get_char(a) != '(' || !any_digit(s.get_char(a + 1)) {
        return None;
    }
    let start = a + 1;
    proof {
        assert(t.drop_first() =~= s@.subrange(start as int, n as int));
        assert(s@.subrange(start as int, start as int) =~= Seq::<char>::empty());
        lemma_digit_prefix_len_bound(t.drop_first());
    }
    let mut i: usize = start;
    let mut acc: u64 = 0;
    while i < n && any_digit(s.get_char(i))
        invariant
            start <= i <= n,
            n == s@.len(),
            start == a + 1,
            a + 2 <= n,
            t == s@.subrange(a as int, n as int),
            t.drop_first() == s@.subrange(start as int, n as int),
            digit_prefix_len(t.drop_first()) <= t.drop_first().len(),
            annotation_digits(s@) == Some(t.subrange(1, 1 + digit_prefix_len(t.drop_first()) as int)),
            digit_prefix_len(s@.subrange(i as int, n as int)) + (i - start) == digit_prefix_len(
                s@.subrange(start as int, n as int),
            ),
            acc == digits_value(s@.subrange(start as int, i as int)),
            all_ascii_digits(s@.subrange(start as int, i as int)),
        decreases n - i,
    {
        let c = s.get_char(i);
        if !digit(c) {
            proof {
                assert(is_any_digit(s@.subrange(i as int, n as int)[0]));
                let len = digit_prefix_len(t.drop_first()) as int;
                let d = t.subrange(1, 1 + len);
                assert(d[i - start] == c);
            }
            return Some(Err(ParseError::InvalidCount));
        }
        let dv = (c as u32 - 48) as u64;
        proof {
            assert(s@.subrange(i as int, n as int).drop_first() =~= s@.subrange(i + 1, n as int));
            assert(s@.subrange(start as int, i + 1).drop_last() =~= s@.subrange(start as int, i as int));
        }
        let next = match acc.checked_mul(10) {
            Some(m) => m.checked_add(dv),
            None => None,
        };
        match next {
            Some(v) => {
                acc = v;
                assert(s@.subrange(start as int, i + 1) =~= s@.subrange(start as int, i as int).push(c));
            },
            None => {
                proof {
                    assert(is_any_digit(s@.subrange(i as int, n as int)[0]));
                    let len = digit_prefix_len(t.drop_first()) as int;
                    let d = t.subrange(1, 1 + len);
                    assert(d.subrange(0, i + 1 - start) =~= s@.subrange(start as int, i + 1));
                    lemma_digits_value_prefix(d, i + 1 - start);
                }
                return Some(Err(ParseError::InvalidCount));
            },
        }
        i += 1;
    }
    proof {
        let len = digit_prefix_len(t.drop_first()) as int;
        assert(t.subrange(1, 1 + len) =~= s@.subrange(start as int, i as int));
    }
    Some(Ok(acc))
}

/// What a booking block holds: the text of its first heading, the target of its
/// first link, and the text of its first inline annotation, each where present.
#[derive(Debug)]
pub struct BlockFields {
    pub heading: Option<String>,
    pub link: Option<String>,
    pub annotation: Option<String>,
}

pub ghost struct BlockView {
    pub heading: Option<Seq<char>>,
    pub link: Option<Seq<char>>,
    pub annotation: Option<Seq<char>>,
}

pub open spec fn text_view(o: Option<String>) -> Option<Seq<char>> {
    match o {
        Some(s) => Some(s@),
        None => None,
    }
}

impl View for BlockFields {
    type V = BlockView;

    open spec fn view(&self) -> BlockView {
        BlockView {
            heading: text_view(self.heading),
            link: text_view(self.link),
            annotation: text_view(self.annotation),
        }
    }
}

impl BlockFields {
    pub fn new(heading: Option<String>, link: Option<String>, annotation: Option<String>) -> (r: Self)
        ensures
            r.heading == heading,
            r.link == link,
            r.annotation == annotation,
    {
        BlockFields { heading, link, annotation }
    }
}

/// What one booking block yields: a record, nothing (the block does not match
/// the grammar), or an error (it matches, but its count does not fit).
#[derive(Debug, PartialEq, Eq)]
pub enum RecordOutcome {
    Parsed(Location),
    Skipped,
    Malformed(ParseError),
}

pub ghost enum OutcomeView {
    Parsed(LocationView),
    Skipped,
    Malformed(ParseError),
}

impl View for RecordOutcome {
    type V = OutcomeView;

    open spec fn view(&self) -> OutcomeView {
        match self {
            RecordOutcome::Parsed(l) => OutcomeView::Parsed(l@),
            RecordOutcome::Skipped => OutcomeView::Skipped,
            RecordOutcome::Malformed(e) => OutcomeView::Malformed(*e),
        }
    }
}

/// What a block yields: a record only where all three fields are present and
/// heading and annotation both match the grammar.
pub open spec fn block_outcome(b: BlockView) -> OutcomeView {
    match (b.heading, b.link, b.annotation) {
        (Some(h), Some(l), Some(a)) => match (label_parts(h), annotation_digits(a)) {
            (Some(p), Some(d)) => if all_ascii_digits(d) && digits_value(d) <= u64::MAX {
                OutcomeView::Parsed(
                    LocationView {
                        region: p.0,
                        organization: p.1,
                        booking_link: l,
                        available_count: digits_value(d) as u64,
                    },
                )
            } else {
                OutcomeView::Malformed(ParseError::InvalidCount)
            },
            _ => OutcomeView::Skipped,
        },
        _ => OutcomeView::Skipped,
    }
}

/// Reads one booking block into a record.
pub fn parse_block(block: &BlockFields) -> (r: RecordOutcome)
    ensures
        r@ == block_outcome(block@),
{
    let (heading, link, annotation) = match (&block.heading, &block.link, &block.annotation) {
        (Some(h), Some(l), Some(a)) => (h, l, a),
        _ => return RecordOutcome::Skipped,
    };
    let label = parse_label(heading.as_str());
    let count = parse_annotation(annotation.as_str());
    match (label, count) {
        (Some((region, organization)), Some(Ok(n))) => RecordOutcome::Parsed(
            Location { region, organization, booking_link: link.clone(), available_count: n },
        ),
        (Some(_), Some(Err(e))) => RecordOutcome::Malformed(e),
        _ => RecordOutcome::Skipped,
    }
}

/// A block that lacks its heading, its link or its annotation, or whose
/// heading or annotation does not match the grammar, yields no record.
pub proof fn lemma_incomplete_block_skipped(b: BlockView)
    requires
        b.heading is None || b.link is None || b.annotation is None
            || label_parts(b.heading->0) is None || ({
            let t = trim_start(b.annotation->0);
            !(t.len() >= 2 && t[0] == '(' && is_any_digit(t[1]))
        }),
    ensures
        block_outcome(b) == OutcomeView::Skipped,
{
}

proof fn lemma_digit_prefix_len_of_run(d: Seq<char>, tail: Seq<char>)
    requires
        all_ascii_digits(d),
        tail.len() == 0 || !is_any_digit(tail[0]),
    ensures
        digit_prefix_len(d + tail) == d.len(),
    decreases d.len(),
{
    if d.len() > 0 {
        assert((d + tail).drop_first() =~= d.drop_first() + tail);
        assert(is_digit(d[0]));
        lemma_digit_prefix_len_of_run(d.drop_first(), tail);
    } else {
        assert(d + tail =~= tail);
    }
}

proof fn lemma_trim_start_skips(lead: Seq<char>, s: Seq<char>)
    requires
        forall|i: int| 0 <= i < lead.len() ==> is_white_space(lead[i]),
    ensures
        trim_start(lead + s) == trim_start(s),
    decreases lead.len(),
{
    if lead.len() > 0 {
        assert((lead + s).drop_first() =~= lead.drop_first() + s);
        lemma_trim_start_skips(lead.drop_first(), s);
    } else {
        assert(lead + s =~= s);
    }
}

/// A block whose heading has its first colon at `i`, white space right after
/// it, and text on both sides; whose link is present; and whose annotation
/// reads, after white space, `(` and a run of ASCII digits that fits in `u64`,
/// followed by anything but a digit, yields exactly the record of the trimmed
/// text before the colon, the trimmed text after it, the link verbatim, and
/// the number that the digits spell.
pub proof fn lemma_well_formed_block(
    heading: Seq<char>,
    i: int,
    link: Seq<char>,
    lead: Seq<char>,
    digits: Seq<char>,
    tail: Seq<char>,
)
    requires
        is_first_colon(heading, i),
        i + 1 < heading.len(),
        is_white_space(heading[i + 1]),
        trim(heading.subrange(0, i)).len() > 0,
        trim(heading.subrange(i + 1, heading.len() as int)).len() > 0,
        forall|k: int| 0 <= k < lead.len() ==> is_white_space(lead[k]),
        digits.len() > 0,
        all_ascii_digits(digits),
        digits_value(digits) <= u64::MAX,
        tail.len() == 0 || !is_any_digit(tail[0]),
    ensures
        block_outcome(
            BlockView {
                heading: Some(heading),
                link: Some(link),
                annotation: Some(lead + (seq!['('] + digits + tail)),
            },
        ) == OutcomeView::Parsed(
            LocationView {
                region: trim(heading.subrange(0, i)),
                organization: trim(heading.subrange(i + 1, heading.len() as int)),
                booking_link: link,
                available_count: digits_value(digits) as u64,
            },
        ),
{
    let c = choose|k: int| is_first_colon(heading, k);
    assert(c == i) by {
        if c < i {
            assert(heading[c] != ':');
        } else if c > i {
            assert(heading[i] != ':');
        }
    }
    let a = seq!['('] + digits + tail;
    lemma_trim_start_skips(lead, a);
    assert(trim_start(a) == a);
    assert(a.drop_first() =~= digits + tail);
    lemma_digit_prefix_len_of_run(digits, tail);
    assert(a.subrange(1, 1 + digits.len() as int) =~= digits);
    assert(is_digit(a[1]));
}

} // verus!
