//! Vanity rules ("shape:aabb", "straight:4", "custom:888") and how a
//! segment of an address is checked against one.
use vstd::prelude::*;
use vstd::utf8::encode_utf8;
use crate::shape::{digit_value, is_digit, is_straight, shape_matches, spec_is_straight, spec_shape_matches};
use crate::text::{
    chars_of, decimal_string, decimal_text, has_prefix, strip_prefix, to_uppercase,
    uppercased,
};

verus! {

/// What a rule asks of a segment.
pub enum PatternKind {
    /// The segment has the shape of this text (see `spec_shape_matches`).
    Shape(String),
    /// The segment is a run of this many digits counting up or down.
    Straight(usize),
    /// The segment is exactly this text.
    Exact(String),
}

/// A rule as the mathematics sees it.
pub enum PatternSpec {
    Shape(Seq<char>),
    Straight(nat),
    Exact(Seq<char>),
}

impl View for PatternKind {
    type V = PatternSpec;

    open spec fn view(&self) -> PatternSpec {
        match self {
            PatternKind::Shape(s) => PatternSpec::Shape(s@),
            PatternKind::Straight(n) => PatternSpec::Straight(*n as nat),
            PatternKind::Exact(s) => PatternSpec::Exact(s@),
        }
    }
}

/// A rule together with the label shown for it.
pub struct PatternDef {
    pub label: String,
    pub kind: PatternKind,
}

impl View for PatternDef {
    type V = (Seq<char>, PatternSpec);

    open spec fn view(&self) -> (Seq<char>, PatternSpec) {
        (self.label@, self.kind@)
    }
}

/// The longest text a shape or custom rule may have, in UTF-8 bytes.
pub const MAX_RULE_TEXT_BYTES: usize = 20;

/// The UTF-8 byte length of a text, as `str::len` reports it.
pub open spec fn utf8_len(s: Seq<char>) -> usize {
    encode_utf8(s).len() as usize
}

/// The value of a string of decimal digits.
pub open spec fn decimal_value(d: Seq<char>) -> nat
    decreases d.len(),
{
    if d.len() == 0 {
        0
    } else {
        decimal_value(d.drop_last()) * 10 + (digit_value(d.last()) as nat)
    }
}

/// The text after an optional leading `+`.
pub open spec fn unsigned_digits(t: Seq<char>) -> Seq<char> {
    if t.len() > 0 && t[0] == '+' {
        t.drop_first()
    } else {
        t
    }
}

/// Every character is an ASCII digit.
pub open spec fn all_digits(d: Seq<char>) -> bool {
    forall|i: int| 0 <= i < d.len() ==> is_digit(#[trigger] d[i])
}

/// What `str::parse::<usize>` accepts: an optional `+`, then one or more
/// ASCII digits whose value fits in a `usize`.
pub open spec fn spec_parse_usize(t: Seq<char>) -> Option<nat> {
    let digits = unsigned_digits(t);
    if digits.len() > 0 && all_digits(digits) && decimal_value(digits) <= usize::MAX {
        Some(decimal_value(digits))
    } else {
        None
    }
}

/// The rule that a rule id names, with its label, if the id is valid.
pub open spec fn spec_pattern_def(id: Seq<char>) -> Option<(Seq<char>, PatternSpec)> {
    if has_prefix(id, "shape:"@) {
        let shape = id.skip(6);
        if shape.len() == 0 || utf8_len(shape) > 20 {
            None
        } else {
            Some((uppercased(shape), PatternSpec::Shape(shape)))
        }
    } else if has_prefix(id, "straight:"@) {
        match spec_parse_usize(id.skip(9)) {
            Some(n) => if 2 <= n <= 10 {
                Some((decimal_text(n) + "位顺子"@, PatternSpec::Straight(n)))
            } else {
                None
            },
            None => None,
        }
    } else if has_prefix(id, "custom:"@) {
        let value = id.skip(7);
        if value.len() == 0 || utf8_len(value) > 20 {
            None
        } else {
            Some((value, PatternSpec::Exact(value)))
        }
    } else {
        None
    }
}

/// The length of the segments a rule is checked on: the UTF-8 byte length
/// of a shape, the size of a straight, the character count of a custom text.
pub open spec fn pattern_length(p: PatternSpec) -> nat {
    match p {
        PatternSpec::Shape(s) => utf8_len(s) as nat,
        PatternSpec::Straight(n) => n,
        PatternSpec::Exact(v) => v.len(),
    }
}

/// Whether a segment satisfies a rule.
pub open spec fn spec_pattern_matches(seg: Seq<char>, p: PatternSpec) -> bool {
    match p {
        PatternSpec::Shape(s) => spec_shape_matches(seg, s),
        PatternSpec::Straight(n) => spec_is_straight(seg, n as int),
        PatternSpec::Exact(v) => seg == v,
    }
}

/// Monotonicity of decimal values along prefixes.
proof fn lemma_decimal_prefix_le(d: Seq<char>, k: int)
    requires
        0 <= k <= d.len(),
    ensures
        decimal_value(d.take(k)) <= decimal_value(d),
    decreases d.len() - k,
{
    if k < d.len() {
        lemma_decimal_prefix_le(d, k + 1);
        assert(d.take(k + 1).drop_last() =~= d.take(k));
        assert(decimal_value(d.take(k + 1)) == decimal_value(d.take(k)) * 10 + (digit_value(
            d.take(k + 1).last(),
        ) as nat));
    } else {
        assert(d.take(k) =~= d);
    }
}

/// The decimal text of `n` is a non-empty run of digits whose value is `n`.
proof fn lemma_decimal_text_value(n: nat)
    ensures
        decimal_text(n).len() > 0,
        all_digits(decimal_text(n)),
        decimal_value(decimal_text(n)) == n,
    decreases n,
{
    let t = decimal_text(n);
    if n < 10 {
        assert(t.drop_last() =~= Seq::<char>::empty());
        assert(digit_value(t.last()) == n);
        assert(decimal_value(t) == decimal_value(t.drop_last()) * 10 + n);
    } else {
        lemma_decimal_text_value(n / 10);
        assert(t.drop_last() =~= decimal_text(n / 10));
        assert(digit_value(t.last()) == n % 10);
        assert(decimal_value(t) == decimal_value(decimal_text(n / 10)) * 10 + (n % 10));
        assert((n / 10) * 10 + n % 10 == n);
        assert forall|i: int| 0 <= i < t.len() implies is_digit(#[trigger] t[i]) by {
            if i < t.len() - 1 {
                assert(t[i] == decimal_text(n / 10)[i]);
            }
        }
    }
}

/// `str::parse::<usize>` reads back the decimal text of any `usize`.
pub proof fn law_parse_decimal_text(n: nat)
    requires
        n <= usize::MAX,
    ensures
        spec_parse_usize(decimal_text(n)) == Some(n),
{
    lemma_decimal_text_value(n);
    let t = decimal_text(n);
    assert(is_digit(t[0]));
    assert(unsigned_digits(t) == t);
}

/// The id "straight:" followed by the decimal text of `n` names the rule
/// `Straight(n)`, labelled with `n` and "位顺子", exactly when `n` is from 2
/// to 10; for any other size it names no rule.
pub proof fn law_straight_rule_ids(n: nat)
    requires
        n <= usize::MAX,
    ensures
        spec_pattern_def("straight:"@ + decimal_text(n)) == if 2 <= n <= 10 {
            Some((decimal_text(n) + "位顺子"@, PatternSpec::Straight(n)))
        } else {
            None::<(Seq<char>, PatternSpec)>
        },
{
    reveal_strlit("shape:");
    reveal_strlit("straight:");
    let id = "straight:"@ + decimal_text(n);
    lemma_decimal_text_value(n);
    assert(id[1] == 't');
    assert(!has_prefix(id, "shape:"@)) by {
        if has_prefix(id, "shape:"@) {
            assert(id.take(6)[1] == "shape:"@[1]);
        }
    }
    assert(id.take(9) =~= "straight:"@);
    assert(id.skip(9) =~= decimal_text(n));
    law_parse_decimal_text(n);
}

/// Parses a decimal `usize` as `str::parse::<usize>` does.
pub fn parse_usize(t: &str) -> (r: Option<usize>)
    ensures
        match r {
            Some(n) => spec_parse_usize(t@) == Some(n as nat),
            None => spec_parse_usize(t@) is None,
        },
{
    let chars = chars_of(t);
    let mut start: usize = 0;
    if chars.len() > 0 && chars[0] == '+' {
        start = 1;
    }
    let ghost digits = unsigned_digits(t@);
    assert(digits =~= chars@.skip(start as int));
    if start >= chars.len() {
        assert(digits.len() == 0);
        return None;
    }
    let mut value: usize = 0;
    let mut i: usize = start;
    while i < chars.len()
        invariant
            chars@ == t@,
            digits == chars@.skip(start as int),
            start <= i <= chars.len(),
            start < chars.len(),
            digits == unsigned_digits(t@),
            value as nat == decimal_value(digits.take(i - start)),
            forall|k: int| 0 <= k < i - start ==> is_digit(#[trigger] digits[k]),
        decreases chars.len() - i,
    {
        let c = chars[i];
        if !('0' <= c && c <= '9') {
            assert(!is_digit(digits[i - start]));
            return None;
        }
        let d: usize = (c as u32 - 48) as usize;
        proof {
            assert(digits.take(i - start + 1).drop_last() =~= digits.take(i - start));
            assert(digits.take(i - start + 1).last() == c);
        }
        match value.checked_mul(10) {
            Some(m) => match m.checked_add(d) {
                Some(s) => {
                    value = s;
                },
                None => {
                    proof {
                        lemma_decimal_prefix_le(digits, i - start + 1);
                    }
                    return None;
                },
            },
            None => {
                proof {
                    lemma_decimal_prefix_le(digits, i - start + 1);
                }
                return None;
            },
        }
        i = i + 1;
    }
    assert(digits.take(i - start) =~= digits);
    Some(value)
}

/// Reads a rule id: "shape:<text>" (1 to 20 bytes), "straight:<n>" (n from
/// 2 to 10) or "custom:<text>" (1 to 20 bytes); anything else names no rule.
pub fn pattern_def(id: &str) -> (r: Option<PatternDef>)
    ensures
        match r {
            Some(p) => spec_pattern_def(id@) == Some(p@),
            None => spec_pattern_def(id@) is None,
        },
{
    proof {
        reveal_strlit("shape:");
        reveal_strlit("straight:");
        reveal_strlit("custom:");
    }
    if let Some(shape) = strip_prefix(id, "shape:") {
        if shape.is_empty() || shape.len() > MAX_RULE_TEXT_BYTES {
            return None;
        }
        let label = to_uppercase(shape);
        return Some(PatternDef { label, kind: PatternKind::Shape(String::from_str(shape)) });
    }
    if let Some(size_text) = strip_prefix(id, "straight:") {
        let size = match parse_usize(size_text) {
            Some(n) => n,
            None => {
                return None;
            },
        };
        if !(2 <= size && size <= 10) {
            return None;
        }
        let digits = decimal_string(size);
        let label = digits.concat("位顺子");
        return Some(PatternDef { label, kind: PatternKind::Straight(size) });
    }
    if let Some(value) = strip_prefix(id, "custom:") {
        if value.is_empty() || value.len() > MAX_RULE_TEXT_BYTES {
            return None;
        }
        return Some(
            PatternDef { label: String::from_str(value), kind: PatternKind::Exact(String::from_str(value)) },
        );
    }
    None
}

impl PatternDef {
    /// The segment lengths this rule is checked on (always one).
    pub fn lengths(&self) -> (r: Vec<usize>)
        ensures
            r@.len() == 1,
            r@[0] as nat == pattern_length(self@.1),
    {
        let n: usize = match &self.kind {
            PatternKind::Shape(shape) => shape.as_str().len(),
            PatternKind::Straight(size) => *size,
            PatternKind::Exact(value) => value.as_str().unicode_len(),
        };
        let mut r: Vec<usize> = Vec::new();
        r.push(n);
        r
    }

    /// The longest of `lengths()`.
    pub fn max_len(&self) -> (r: usize)
        ensures
            r as nat == pattern_length(self@.1),
    {
        let lens = self.lengths();
        let mut best: usize = 0;
        let mut i: usize = 0;
        while i < lens.len()
            invariant
                lens@.len() == 1,
                lens@[0] as nat == pattern_length(self@.1),
                i <= lens.len(),
                i == 0 ==> best == 0,
                i == 1 ==> best == lens@[0],
            decreases lens.len() - i,
        {
            if i == 0 || lens[i] > best {
                best = lens[i];
            }
            i = i + 1;
        }
        best
    }
}

/// The characters of two strings are the same.
fn same_text(a: &Vec<char>, b: &Vec<char>) -> (r: bool)
    ensures
        r == (a@ == b@),
{
    if a.len() != b.len() {
        return false;
    }
    let mut i: usize = 0;
    while i < a.len()
        invariant
            a.len() == b.len(),
            i <= a.len(),
            forall|k: int| 0 <= k < i ==> a@[k] == b@[k],
        decreases a.len() - i,
    {
        if a[i] != b[i] {
            return false;
        }
        i = i + 1;
    }
    assert(a@ =~= b@);
    true
}

/// Whether `segment` satisfies the rule.
pub fn pattern_matches(segment: &str, pattern: &PatternDef) -> (r: bool)
    ensures
        r == spec_pattern_matches(segment@, pattern@.1),
{
    match &pattern.kind {
        PatternKind::Shape(shape) => shape_matches(segment, shape.as_str()),
        PatternKind::Straight(size) => is_straight(segment, *size),
        PatternKind::Exact(value) => {
            let a = chars_of(segment);
            let b = chars_of(value.as_str());
            same_text(&a, &b)
        },
    }
}

} // verus!
