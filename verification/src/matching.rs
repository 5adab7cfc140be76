//! Where in an address the rules are looked for, and what a match reports.
use vstd::prelude::*;
use vstd::slice::slice_subrange;
use crate::pattern::{
    pattern_def, pattern_length, pattern_matches, spec_pattern_def, spec_pattern_matches, PatternDef,
    PatternSpec,
};
use crate::text::{chars_of, spec_strip_prefix, string_from_chars, strip_prefix};

verus! {

/// Where a rule is looked for in the address body.
#[derive(Clone, Copy, PartialEq, Eq, Structural)]
pub enum MatchType {
    Prefix,
    Suffix,
    Contains,
}

/// What the user asked for.
pub struct RuleConfig {
    pub match_types: Vec<MatchType>,
    pub pattern_ids: Vec<String>,
    pub target_count: u32,
    pub max_attempts: u64,
    pub threads: Option<usize>,
}

/// The distinct matched segments and the distinct rules they matched, in
/// the order they were first found.
pub struct MatchResult {
    pub matched_parts: Vec<String>,
    pub matched_rules: Vec<String>,
}

/// The label of a match type.
pub open spec fn match_type_text(t: MatchType) -> Seq<char> {
    match t {
        MatchType::Prefix => "前缀"@,
        MatchType::Suffix => "后缀"@,
        MatchType::Contains => "包含"@,
    }
}

/// The label shown for a match type.
pub fn match_type_label(match_type: &MatchType) -> (r: &'static str)
    ensures
        r@ == match_type_text(*match_type),
{
    match match_type {
        MatchType::Prefix => "前缀",
        MatchType::Suffix => "后缀",
        MatchType::Contains => "包含",
    }
}

/// The error text for a configuration without match types.
pub open spec fn no_match_type_error() -> Seq<char> {
    "至少选择一种匹配类型。"@
}

/// The error text for a configuration without rules.
pub open spec fn no_rule_error() -> Seq<char> {
    "至少选择一种靓号规则。"@
}

/// A configuration needs at least one match type and at least one rule id.
pub fn validate_config(config: &RuleConfig) -> (r: Result<(), String>)
    ensures
        config.match_types@.len() == 0 ==> (r matches Err(e) && e@ == no_match_type_error()),
        config.match_types@.len() > 0 && config.pattern_ids@.len() == 0 ==> (r matches Err(e)
            && e@ == no_rule_error()),
        config.match_types@.len() > 0 && config.pattern_ids@.len() > 0 ==> r is Ok,
{
    if config.match_types.len() == 0 {
        return Err(String::from_str("至少选择一种匹配类型。"));
    }
    if config.pattern_ids.len() == 0 {
        return Err(String::from_str("至少选择一种靓号规则。"));
    }
    Ok(())
}

/// `list` with `x` added at the end unless it is already there.
pub open spec fn with_unique(list: Seq<Seq<char>>, x: Seq<char>) -> Seq<Seq<char>> {
    if list.contains(x) {
        list
    } else {
        list.push(x)
    }
}

/// `list` after adding each of `items` in turn with `with_unique`.
pub open spec fn absorb(list: Seq<Seq<char>>, items: Seq<Seq<char>>) -> Seq<Seq<char>>
    decreases items.len(),
{
    if items.len() == 0 {
        list
    } else {
        with_unique(absorb(list, items.drop_last()), items.last())
    }
}

/// The distinct items of a sequence, in order of first occurrence.
pub open spec fn distinct_in_order(items: Seq<Seq<char>>) -> Seq<Seq<char>> {
    absorb(Seq::empty(), items)
}

/// Absorbing two runs of items one after the other absorbs their concatenation.
pub proof fn lemma_absorb_concat(list: Seq<Seq<char>>, a: Seq<Seq<char>>, b: Seq<Seq<char>>)
    ensures
        absorb(list, a + b) == absorb(absorb(list, a), b),
    decreases b.len(),
{
    if b.len() == 0 {
        assert(a + b =~= a);
    } else {
        lemma_absorb_concat(list, a, b.drop_last());
        assert((a + b).drop_last() =~= a + b.drop_last());
        assert((a + b).last() == b.last());
    }
}

/// Appends `value` unless an equal string is already in the list.
pub fn push_unique(list: &mut Vec<String>, value: String)
    ensures
        final(list).deep_view() == with_unique(old(list).deep_view(), value@),
{
    let mut i: usize = 0;
    while i < list.len()
        invariant
            i <= list.len(),
            forall|k: int| 0 <= k < i ==> list@[k]@ != value@,
        decreases list.len() - i,
    {
        if list[i] == value {
            assert(list.deep_view()[i as int] == value@);
            return;
        }
        i = i + 1;
    }
    proof {
        assert forall|k: int| 0 <= k < list.deep_view().len() implies list.deep_view()[k] != value@ by {
            assert(list.deep_view()[k] == list@[k]@);
        }
        assert(!list.deep_view().contains(value@));
    }
    let ghost before = list.deep_view();
    list.push(value);
    assert(list.deep_view() =~= before.push(list@[list@.len() - 1]@));
}

/// The segment of `len` characters at `start`, if it fits and satisfies the rule.
pub open spec fn hit_at(chars: Seq<char>, p: PatternSpec, start: int, len: int) -> Seq<Seq<char>> {
    if start + len <= chars.len() && spec_pattern_matches(chars.subrange(start, start + len), p) {
        seq![chars.subrange(start, start + len)]
    } else {
        Seq::empty()
    }
}

/// The segments found at the given start positions, in order.
pub open spec fn segments_at(chars: Seq<char>, p: PatternSpec, positions: Seq<usize>) -> Seq<
    Seq<char>,
>
    decreases positions.len(),
{
    if positions.len() == 0 {
        Seq::empty()
    } else {
        segments_at(chars, p, positions.drop_last()) + hit_at(
            chars,
            p,
            positions.last() as int,
            pattern_length(p) as int,
        )
    }
}

/// The start positions a match type looks at in a body of `n` characters
/// for segments of `len` characters.
pub open spec fn start_positions(t: MatchType, n: nat, len: nat) -> Seq<usize> {
    match t {
        MatchType::Prefix => seq![0usize],
        MatchType::Suffix => if n >= len {
            seq![(n - len) as usize]
        } else {
            Seq::empty()
        },
        MatchType::Contains => if n < len {
            Seq::empty()
        } else {
            Seq::new(n, |i: int| i as usize)
        },
    }
}

/// The segments of `body` that satisfy the rule at the places the match
/// type looks at.
pub open spec fn pattern_segments(body: Seq<char>, t: MatchType, p: PatternSpec) -> Seq<Seq<char>> {
    segments_at(body, p, start_positions(t, body.len(), pattern_length(p)))
}

/// Checks the rule on the segment of each length it asks for at each of
/// the start positions, and returns the segments that satisfy it.
pub fn match_at_positions(chars: &[char], pattern: &PatternDef, positions: &[usize]) -> (r: Vec<
    String,
>)
    ensures
        r.deep_view() == segments_at(chars@, pattern@.1, positions@),
{
    let mut segments: Vec<String> = Vec::new();
    let mut i: usize = 0;
    while i < positions.len()
        invariant
            i <= positions@.len(),
            segments.deep_view() == segments_at(chars@, pattern@.1, positions@.take(i as int)),
        decreases positions.len() - i,
    {
        let start = positions[i];
        let lens = pattern.lengths();
        let len = lens[0];
        let ghost before = segments.deep_view();
        proof {
            assert(positions@.take(i + 1).drop_last() =~= positions@.take(i as int));
        }
        if start <= chars.len() && len <= chars.len() - start {
            let piece = slice_subrange(chars, start, start + len);
            let segment = string_from_chars(piece);
            if pattern_matches(segment.as_str(), pattern) {
                segments.push(segment);
                assert(segments.deep_view() =~= before + seq![chars@.subrange(
                    start as int,
                    start + len,
                )]);
            } else {
                assert(before + Seq::<Seq<char>>::empty() =~= before);
            }
        } else {
            assert(before + Seq::<Seq<char>>::empty() =~= before);
        }
        i = i + 1;
    }
    assert(positions@.take(positions@.len() as int) =~= positions@);
    segments
}

/// The segments of `body` that satisfy the rule where the match type looks:
/// at the start, at the end, or anywhere.
pub fn find_pattern_segments(body: &str, match_type: &MatchType, pattern: &PatternDef) -> (r: Vec<
    String,
>)
    ensures
        r.deep_view() == pattern_segments(body@, *match_type, pattern@.1),
{
    let chars = chars_of(body);
    let len = pattern.max_len();
    match match_type {
        MatchType::Prefix => {
            let mut positions: Vec<usize> = Vec::new();
            positions.push(0);
            assert(positions@ =~= seq![0usize]);
            match_at_positions(chars.as_slice(), pattern, positions.as_slice())
        },
        MatchType::Suffix => {
            let mut positions: Vec<usize> = Vec::new();
            if chars.len() >= len {
                positions.push(chars.len() - len);
                assert(positions@ =~= seq![(chars@.len() - len) as usize]);
            } else {
                assert(positions@ =~= Seq::<usize>::empty());
            }
            match_at_positions(chars.as_slice(), pattern, positions.as_slice())
        },
        MatchType::Contains => {
            if chars.len() < len {
                return Vec::new();
            }
            let mut positions: Vec<usize> = Vec::new();
            let mut i: usize = 0;
            while i < chars.len()
                invariant
                    i <= chars@.len(),
                    positions@ =~= Seq::new(i as nat, |k: int| k as usize),
                decreases chars.len() - i,
            {
                positions.push(i);
                i = i + 1;
            }
            match_at_positions(chars.as_slice(), pattern, positions.as_slice())
        },
    }
}

/// The rule text recorded for a match: "<match type> · <rule label>".
pub open spec fn rule_text(t: MatchType, label: Seq<char>) -> Seq<char> {
    match_type_text(t) + " · "@ + label
}

/// The (segment, rule text) pairs one rule id yields for one match type.
pub open spec fn id_hits(body: Seq<char>, t: MatchType, id: Seq<char>) -> Seq<(Seq<char>, Seq<char>)> {
    match spec_pattern_def(id) {
        None => Seq::empty(),
        Some((label, p)) => pattern_segments(body, t, p).map_values(
            |seg: Seq<char>| (seg, rule_text(t, label)),
        ),
    }
}

/// The pairs all rule ids yield for one match type, in order.
pub open spec fn type_hits(body: Seq<char>, t: MatchType, ids: Seq<Seq<char>>) -> Seq<
    (Seq<char>, Seq<char>),
>
    decreases ids.len(),
{
    if ids.len() == 0 {
        Seq::empty()
    } else {
        type_hits(body, t, ids.drop_last()) + id_hits(body, t, ids.last())
    }
}

/// The pairs all match types yield for all rule ids, in order.
pub open spec fn all_hits(body: Seq<char>, types: Seq<MatchType>, ids: Seq<Seq<char>>) -> Seq<
    (Seq<char>, Seq<char>),
>
    decreases types.len(),
{
    if types.len() == 0 {
        Seq::empty()
    } else {
        all_hits(body, types.drop_last(), ids) + type_hits(body, types.last(), ids)
    }
}

/// The part of an address that rules are looked for in: without its
/// leading "T", if it has one.
pub open spec fn address_body(address: Seq<char>) -> Seq<char> {
    match spec_strip_prefix(address, "T"@) {
        Some(rest) => rest,
        None => address,
    }
}

/// The segments of a pair list.
pub open spec fn hit_parts(h: Seq<(Seq<char>, Seq<char>)>) -> Seq<Seq<char>> {
    h.map_values(|x: (Seq<char>, Seq<char>)| x.0)
}

/// The rule texts of a pair list.
pub open spec fn hit_rules(h: Seq<(Seq<char>, Seq<char>)>) -> Seq<Seq<char>> {
    h.map_values(|x: (Seq<char>, Seq<char>)| x.1)
}

proof fn lemma_hits_concat(a: Seq<(Seq<char>, Seq<char>)>, b: Seq<(Seq<char>, Seq<char>)>)
    ensures
        hit_parts(a + b) == hit_parts(a) + hit_parts(b),
        hit_rules(a + b) == hit_rules(a) + hit_rules(b),
{
    assert(hit_parts(a + b) =~= hit_parts(a) + hit_parts(b));
    assert(hit_rules(a + b) =~= hit_rules(a) + hit_rules(b));
}

/// Records every segment that one rule yields for one match type.
fn absorb_id_hits(
    result: &mut MatchResult,
    body: &str,
    match_type: MatchType,
    pattern_id: &String,
)
    ensures
        final(result).matched_parts.deep_view() == absorb(
            old(result).matched_parts.deep_view(),
            hit_parts(id_hits(body@, match_type, pattern_id@)),
        ),
        final(result).matched_rules.deep_view() == absorb(
            old(result).matched_rules.deep_view(),
            hit_rules(id_hits(body@, match_type, pattern_id@)),
        ),
{
    let pattern = match pattern_def(pattern_id.as_str()) {
        Some(p) => p,
        None => {
            assert(hit_parts(id_hits(body@, match_type, pattern_id@)) =~= Seq::<Seq<char>>::empty());
            assert(hit_rules(id_hits(body@, match_type, pattern_id@)) =~= Seq::<Seq<char>>::empty());
            return;
        },
    };
    let segments = find_pattern_segments(body, &match_type, &pattern);
    let label = String::from_str(match_type_label(&match_type)).concat(" · ").concat(
        pattern.label.as_str(),
    );
    let ghost hits = id_hits(body@, match_type, pattern_id@);
    let ghost parts0 = result.matched_parts.deep_view();
    let ghost rules0 = result.matched_rules.deep_view();
    assert(hit_parts(hits) =~= segments.deep_view());
    let mut i: usize = 0;
    while i < segments.len()
        invariant
            i <= segments@.len(),
            hits.len() == segments@.len(),
            hit_parts(hits) == segments.deep_view(),
            forall|k: int| 0 <= k < hits.len() ==> #[trigger] hits[k].1 == label@,
            result.matched_parts.deep_view() == absorb(parts0, hit_parts(hits).take(i as int)),
            result.matched_rules.deep_view() == absorb(rules0, hit_rules(hits).take(i as int)),
        decreases segments.len() - i,
    {
        proof {
            assert(hit_parts(hits).take(i + 1).drop_last() =~= hit_parts(hits).take(i as int));
            assert(hit_rules(hits).take(i + 1).drop_last() =~= hit_rules(hits).take(i as int));
            assert(hit_parts(hits).take(i + 1).last() == segments.deep_view()[i as int]);
            assert(hit_rules(hits).take(i + 1).last() == label@);
        }
        push_unique(&mut result.matched_parts, segments[i].clone());
        push_unique(&mut result.matched_rules, label.clone());
        i = i + 1;
    }
    assert(hit_parts(hits).take(i as int) =~= hit_parts(hits));
    assert(hit_rules(hits).take(i as int) =~= hit_rules(hits));
}

/// Looks every rule up at every place the configuration asks for, and
/// reports the distinct matched segments and the distinct rules that
/// matched, in the order they were found.
pub fn find_matches(address: &str, config: &RuleConfig) -> (r: MatchResult)
    ensures
        r.matched_parts.deep_view() == distinct_in_order(
            hit_parts(all_hits(address_body(address@), config.match_types@, config.pattern_ids.deep_view())),
        ),
        r.matched_rules.deep_view() == distinct_in_order(
            hit_rules(all_hits(address_body(address@), config.match_types@, config.pattern_ids.deep_view())),
        ),
{
    proof {
        reveal_strlit("T");
    }
    let body = match strip_prefix(address, "T") {
        Some(rest) => rest,
        None => address,
    };
    let ghost b = body@;
    assert(b == address_body(address@));
    let ghost ids = config.pattern_ids.deep_view();
    let ghost types = config.match_types@;
    let mut result = MatchResult { matched_parts: Vec::new(), matched_rules: Vec::new() };
    assert(result.matched_parts.deep_view() =~= Seq::<Seq<char>>::empty());
    assert(result.matched_rules.deep_view() =~= Seq::<Seq<char>>::empty());
    let mut ti: usize = 0;
    while ti < config.match_types.len()
        invariant
            b == body@,
            ids == config.pattern_ids.deep_view(),
            types == config.match_types@,
            ti <= types.len(),
            result.matched_parts.deep_view() == distinct_in_order(
                hit_parts(all_hits(b, types.take(ti as int), ids)),
            ),
            result.matched_rules.deep_view() == distinct_in_order(
                hit_rules(all_hits(b, types.take(ti as int), ids)),
            ),
        decreases types.len() - ti,
    {
        let match_type = config.match_types[ti];
        let ghost done = all_hits(b, types.take(ti as int), ids);
        proof {
            assert(types.take(ti + 1).drop_last() =~= types.take(ti as int));
            assert(types.take(ti + 1).last() == match_type);
        }
        let mut pi: usize = 0;
        while pi < config.pattern_ids.len()
            invariant
                b == body@,
                ids == config.pattern_ids.deep_view(),
                types == config.match_types@,
                ti < types.len(),
                match_type == types[ti as int],
                done == all_hits(b, types.take(ti as int), ids),
                pi <= ids.len(),
                result.matched_parts.deep_view() == distinct_in_order(
                    hit_parts(done + type_hits(b, match_type, ids.take(pi as int))),
                ),
                result.matched_rules.deep_view() == distinct_in_order(
                    hit_rules(done + type_hits(b, match_type, ids.take(pi as int))),
                ),
            decreases ids.len() - pi,
        {
            let ghost prev = done + type_hits(b, match_type, ids.take(pi as int));
            let ghost new = id_hits(b, match_type, ids[pi as int]);
            proof {
                assert(ids.take(pi + 1).drop_last() =~= ids.take(pi as int));
                assert(ids.take(pi + 1).last() == config.pattern_ids@[pi as int]@);
                assert(done + type_hits(b, match_type, ids.take(pi + 1)) =~= prev + new);
                lemma_hits_concat(prev, new);
                lemma_absorb_concat(Seq::empty(), hit_parts(prev), hit_parts(new));
                lemma_absorb_concat(Seq::empty(), hit_rules(prev), hit_rules(new));
            }
            absorb_id_hits(&mut result, body, match_type, &config.pattern_ids[pi]);
            pi = pi + 1;
        }
        proof {
            assert(ids.take(ids.len() as int) =~= ids);
            assert(all_hits(b, types.take(ti + 1), ids) =~= done + type_hits(b, match_type, ids));
        }
        ti = ti + 1;
    }
    proof {
        assert(types.take(types.len() as int) =~= types);
    }
    result
}

/// The items joined with `sep` between them.
pub open spec fn joined(items: Seq<Seq<char>>, sep: Seq<char>) -> Seq<char>
    decreases items.len(),
{
    if items.len() == 0 {
        Seq::empty()
    } else if items.len() == 1 {
        items[0]
    } else {
        joined(items.drop_last(), sep) + sep + items.last()
    }
}

/// Joins the strings with `sep` between them.
pub fn join_texts(items: &Vec<String>, sep: &str) -> (r: String)
    ensures
        r@ == joined(items.deep_view(), sep@),
{
    let mut out = String::new();
    let ghost all = items.deep_view();
    let mut i: usize = 0;
    while i < items.len()
        invariant
            all == items.deep_view(),
            i <= items@.len(),
            out@ == joined(all.take(i as int), sep@),
        decreases items.len() - i,
    {
        proof {
            assert(all.take(i + 1).drop_last() =~= all.take(i as int));
            assert(all.take(i + 1).last() == items@[i as int]@);
        }
        if i == 0 {
            out = out.concat(items[i].as_str());
            assert(out@ =~= all.take(1)[0]);
        } else {
            out = out.concat(sep).concat(items[i].as_str());
        }
        i = i + 1;
    }
    assert(all.take(i as int) =~= all);
    out
}

/// The labels of the valid rule ids, in order.
pub open spec fn rule_labels(ids: Seq<Seq<char>>) -> Seq<Seq<char>>
    decreases ids.len(),
{
    if ids.len() == 0 {
        Seq::empty()
    } else {
        rule_labels(ids.drop_last()) + match spec_pattern_def(ids.last()) {
            Some((label, _)) => seq![label],
            None => Seq::empty(),
        }
    }
}

/// The summary label of a configuration:
/// "<match types joined by ' / '> · <rule labels joined by ' / '>".
pub open spec fn spec_rule_label(types: Seq<MatchType>, ids: Seq<Seq<char>>) -> Seq<char> {
    joined(types.map_values(|t: MatchType| match_type_text(t)), " / "@) + " · "@ + joined(
        rule_labels(ids),
        " / "@,
    )
}

/// The label recorded with each wallet found under a configuration.
pub fn rule_label(config: &RuleConfig) -> (r: String)
    ensures
        r@ == spec_rule_label(config.match_types@, config.pattern_ids.deep_view()),
{
    let ghost types = config.match_types@;
    let ghost ids = config.pattern_ids.deep_view();
    let mut type_labels: Vec<String> = Vec::new();
    let mut i: usize = 0;
    while i < config.match_types.len()
        invariant
            types == config.match_types@,
            i <= types.len(),
            type_labels.deep_view() =~= types.take(i as int).map_values(
                |t: MatchType| match_type_text(t),
            ),
        decreases types.len() - i,
    {
        let ghost before = type_labels.deep_view();
        type_labels.push(String::from_str(match_type_label(&config.match_types[i])));
        proof {
            assert(type_labels.deep_view() =~= before.push(match_type_text(types[i as int])));
            assert(types.take(i + 1) =~= types.take(i as int).push(types[i as int]));
        }
        i = i + 1;
    }
    assert(types.take(types.len() as int) =~= types);
    let mut labels: Vec<String> = Vec::new();
    let mut j: usize = 0;
    while j < config.pattern_ids.len()
        invariant
            ids == config.pattern_ids.deep_view(),
            j <= ids.len(),
            labels.deep_view() == rule_labels(ids.take(j as int)),
        decreases ids.len() - j,
    {
        proof {
            assert(ids.take(j + 1).drop_last() =~= ids.take(j as int));
            assert(ids.take(j + 1).last() == config.pattern_ids@[j as int]@);
        }
        let ghost before = labels.deep_view();
        match pattern_def(config.pattern_ids[j].as_str()) {
            Some(p) => {
                labels.push(p.label);
                assert(labels.deep_view() =~= before + seq![labels@[labels@.len() - 1]@]);
            },
            None => {
                assert(before + Seq::<Seq<char>>::empty() =~= before);
            },
        }
        j = j + 1;
    }
    assert(ids.take(ids.len() as int) =~= ids);
    let type_label = join_texts(&type_labels, " / ");
    let pattern_label = join_texts(&labels, " / ");
    type_label.concat(" · ").concat(pattern_label.as_str())
}

/// No item occurs twice.
pub open spec fn no_repeats(items: Seq<Seq<char>>) -> bool {
    forall|i: int, j: int| 0 <= i < j < items.len() ==> #[trigger] items[i] != #[trigger] items[j]
}

/// Adding a string twice with `push_unique` is adding it once.
pub proof fn lemma_push_unique_idempotent(list: Seq<Seq<char>>, x: Seq<char>)
    ensures
        with_unique(with_unique(list, x), x) == with_unique(list, x),
{
    if !list.contains(x) {
        assert(list.push(x)[list.len() as int] == x);
    }
}

proof fn lemma_absorb_keeps_set(list: Seq<Seq<char>>, items: Seq<Seq<char>>)
    requires
        no_repeats(list),
    ensures
        no_repeats(absorb(list, items)),
        forall|x: Seq<char>| #[trigger] absorb(list, items).contains(x) <==> list.contains(x) || items.contains(x),
    decreases items.len(),
{
    if items.len() > 0 {
        let prev = absorb(list, items.drop_last());
        lemma_absorb_keeps_set(list, items.drop_last());
        let x = items.last();
        assert forall|y: Seq<char>| items.contains(y) <==> items.drop_last().contains(y) || y == x by {
            if items.contains(y) {
                let k = choose|k: int| 0 <= k < items.len() && items[k] == y;
                if k < items.len() - 1 {
                    assert(items.drop_last()[k] == y);
                }
            }
            if items.drop_last().contains(y) {
                let k = choose|k: int| 0 <= k < items.drop_last().len() && items.drop_last()[k] == y;
                assert(items[k] == y);
            }
            if y == x {
                assert(items[items.len() - 1] == y);
            }
        }
        if !prev.contains(x) {
            let next = prev.push(x);
            assert forall|i: int, j: int| 0 <= i < j < next.len() implies #[trigger] next[i]
                != #[trigger] next[j] by {
                if j == prev.len() {
                    assert(prev[i] != x);
                } else {
                    assert(prev[i] != prev[j]);
                }
            }
            assert forall|y: Seq<char>| next.contains(y) <==> prev.contains(y) || y == x by {
                if next.contains(y) {
                    let k = choose|k: int| 0 <= k < next.len() && next[k] == y;
                    if k < prev.len() {
                        assert(prev[k] == y);
                    }
                }
                if prev.contains(y) {
                    let k = choose|k: int| 0 <= k < prev.len() && prev[k] == y;
                    assert(next[k] == y);
                }
                if y == x {
                    assert(next[prev.len() as int] == y);
                }
            }
        }
    }
}

/// The reported segments (and rules) are the found ones, each reported
/// exactly once: nothing repeats, and something is reported exactly when
/// it was found.
pub proof fn lemma_distinct_in_order(items: Seq<Seq<char>>)
    ensures
        no_repeats(distinct_in_order(items)),
        forall|x: Seq<char>| #[trigger] distinct_in_order(items).contains(x) <==> items.contains(x),
{
    lemma_absorb_keeps_set(Seq::empty(), items);
}

/// Every segment found at any position is a piece of the body, of the
/// rule's length, that satisfies the rule.
pub proof fn lemma_segments_satisfy_rule(chars: Seq<char>, p: PatternSpec, positions: Seq<usize>)
    ensures
        forall|k: int|
            0 <= k < segments_at(chars, p, positions).len() ==> {
                let seg = #[trigger] segments_at(chars, p, positions)[k];
                &&& spec_pattern_matches(seg, p)
                &&& exists|start: int|
                    #![trigger chars.subrange(start, start + pattern_length(p))]
                    0 <= start && start + pattern_length(p) <= chars.len() && seg == chars.subrange(
                        start,
                        start + pattern_length(p),
                    )
            },
    decreases positions.len(),
{
    if positions.len() > 0 {
        lemma_segments_satisfy_rule(chars, p, positions.drop_last());
        let prev = segments_at(chars, p, positions.drop_last());
        let h = hit_at(chars, p, positions.last() as int, pattern_length(p) as int);
        let all = segments_at(chars, p, positions);
        assert forall|k: int| 0 <= k < all.len() implies {
            let seg = #[trigger] all[k];
            &&& spec_pattern_matches(seg, p)
            &&& exists|start: int|
                #![trigger chars.subrange(start, start + pattern_length(p))]
                0 <= start && start + pattern_length(p) <= chars.len() && seg == chars.subrange(
                    start,
                    start + pattern_length(p),
                )
        } by {
            if k < prev.len() {
                assert(all[k] == prev[k]);
            } else {
                let start = positions.last() as int;
                assert(all[k] == h[k - prev.len()]);
                assert(all[k] == chars.subrange(start, start + pattern_length(p)));
            }
        }
    }
}

proof fn lemma_hit_in_segments(chars: Seq<char>, p: PatternSpec, positions: Seq<usize>, k: int)
    requires
        0 <= k < positions.len(),
    ensures
        forall|seg: Seq<char>|
            #[trigger] hit_at(chars, p, positions[k] as int, pattern_length(p) as int).contains(seg)
                ==> segments_at(chars, p, positions).contains(seg),
    decreases positions.len(),
{
    let all = segments_at(chars, p, positions);
    let prev = segments_at(chars, p, positions.drop_last());
    let h = hit_at(chars, p, positions[k] as int, pattern_length(p) as int);
    if k < positions.len() - 1 {
        lemma_hit_in_segments(chars, p, positions.drop_last(), k);
        assert(positions.drop_last()[k] == positions[k]);
        assert forall|seg: Seq<char>| h.contains(seg) implies all.contains(seg) by {
            assert(prev.contains(seg));
            let j = choose|j: int| 0 <= j < prev.len() && prev[j] == seg;
            assert(all[j] == seg);
        }
    } else {
        assert forall|seg: Seq<char>| h.contains(seg) implies all.contains(seg) by {
            let j = choose|j: int| 0 <= j < h.len() && h[j] == seg;
            assert(all[prev.len() + j] == seg);
        }
    }
}

/// Looking anywhere finds everything that looking at the start or at the
/// end finds (for a body that fits in memory; an empty segment in an empty
/// body is the one exception, and no rule has length 0).
pub proof fn lemma_contains_covers_prefix_and_suffix(body: Seq<char>, p: PatternSpec)
    requires
        body.len() <= usize::MAX,
        body.len() > 0 || pattern_length(p) > 0,
    ensures
        forall|seg: Seq<char>|
            #[trigger] pattern_segments(body, MatchType::Prefix, p).contains(seg) ==> pattern_segments(
                body,
                MatchType::Contains,
                p,
            ).contains(seg),
        forall|seg: Seq<char>|
            #[trigger] pattern_segments(body, MatchType::Suffix, p).contains(seg) ==> pattern_segments(
                body,
                MatchType::Contains,
                p,
            ).contains(seg),
{
    let n = body.len();
    let len = pattern_length(p);
    let anywhere = Seq::new(n, |i: int| i as usize);
    let pre = start_positions(MatchType::Prefix, n, len);
    let suf = start_positions(MatchType::Suffix, n, len);
    let empty = Seq::<usize>::empty();
    assert(segments_at(body, p, empty) == Seq::<Seq<char>>::empty());
    assert forall|seg: Seq<char>| #[trigger] pattern_segments(body, MatchType::Prefix, p).contains(seg)
        implies pattern_segments(body, MatchType::Contains, p).contains(seg) by {
        let h = hit_at(body, p, 0, len as int);
        assert(pre.drop_last() =~= empty);
        assert(segments_at(body, p, pre) =~= Seq::<Seq<char>>::empty() + h);
        assert(h.len() > 0);
        assert(len <= n);
        assert(n > 0);
        assert(anywhere[0] == 0usize);
        assert(pattern_segments(body, MatchType::Contains, p) == segments_at(body, p, anywhere));
        lemma_hit_in_segments(body, p, anywhere, 0);
    }
    assert forall|seg: Seq<char>| #[trigger] pattern_segments(body, MatchType::Suffix, p).contains(seg)
        implies pattern_segments(body, MatchType::Contains, p).contains(seg) by {
        assert(n >= len);
        let start = (n - len) as usize;
        assert(suf =~= seq![start]);
        assert(suf.drop_last() =~= empty);
        let h = hit_at(body, p, start as int, len as int);
        assert(segments_at(body, p, suf) =~= Seq::<Seq<char>>::empty() + h);
        assert(h.len() > 0);
        assert(n > 0);
        assert(pattern_segments(body, MatchType::Contains, p) == segments_at(body, p, anywhere));
        if len > 0 {
            assert(anywhere[start as int] == start);
            lemma_hit_in_segments(body, p, anywhere, start as int);
        } else {
            assert(body.subrange(start as int, start as int) =~= body.subrange(0, 0));
            assert(hit_at(body, p, 0, 0) =~= h);
            assert(anywhere[0] == 0usize);
            lemma_hit_in_segments(body, p, anywhere, 0);
        }
    }
}

/// Looking at the start finds the first `pattern_length` characters of the
/// body when they fit and satisfy the rule, and nothing else.
pub proof fn law_prefix_segments(body: Seq<char>, p: PatternSpec)
    ensures
        pattern_segments(body, MatchType::Prefix, p) == if pattern_length(p) <= body.len()
            && spec_pattern_matches(body.take(pattern_length(p) as int), p) {
            seq![body.take(pattern_length(p) as int)]
        } else {
            Seq::<Seq<char>>::empty()
        },
{
    let len = pattern_length(p) as int;
    let pre = start_positions(MatchType::Prefix, body.len(), pattern_length(p));
    assert(pre.drop_last() =~= Seq::<usize>::empty());
    assert(segments_at(body, p, pre.drop_last()) == Seq::<Seq<char>>::empty());
    assert(body.subrange(0, len) == body.take(len)) by {
        if len <= body.len() {
            assert(body.subrange(0, len) =~= body.take(len));
        }
    }
    assert(segments_at(body, p, pre) =~= Seq::<Seq<char>>::empty() + hit_at(body, p, 0, len));
}

/// Looking at the end finds the last `pattern_length` characters of the
/// body when they fit and satisfy the rule, and nothing else: a segment
/// found there always ends at the body's last character.
pub proof fn law_suffix_segments(body: Seq<char>, p: PatternSpec)
    requires
        body.len() <= usize::MAX,
    ensures
        pattern_segments(body, MatchType::Suffix, p) == if pattern_length(p) <= body.len()
            && spec_pattern_matches(body.skip(body.len() - pattern_length(p)), p) {
            seq![body.skip(body.len() - pattern_length(p))]
        } else {
            Seq::<Seq<char>>::empty()
        },
{
    let n = body.len() as int;
    let len = pattern_length(p) as int;
    let suf = start_positions(MatchType::Suffix, body.len(), pattern_length(p));
    if len <= n {
        let start = (n - len) as usize;
        assert(start as int == n - len);
        assert(suf =~= seq![start]);
        assert(suf.drop_last() =~= Seq::<usize>::empty());
        assert(segments_at(body, p, suf.drop_last()) == Seq::<Seq<char>>::empty());
        assert(body.subrange(n - len, n) =~= body.skip(n - len));
        assert(segments_at(body, p, suf) =~= Seq::<Seq<char>>::empty() + hit_at(
            body,
            p,
            n - len,
            len,
        ));
    } else {
        assert(suf =~= Seq::<usize>::empty());
    }
}

/// Looking anywhere finds every window of the body, of the rule's length,
/// that satisfies the rule.
pub proof fn law_contains_finds_every_window(body: Seq<char>, p: PatternSpec, start: int)
    requires
        body.len() <= usize::MAX,
        0 <= start < body.len(),
        start + pattern_length(p) <= body.len(),
        spec_pattern_matches(body.subrange(start, start + pattern_length(p)), p),
    ensures
        pattern_segments(body, MatchType::Contains, p).contains(
            body.subrange(start, start + pattern_length(p)),
        ),
{
    let n = body.len();
    let len = pattern_length(p);
    let anywhere = Seq::new(n, |i: int| i as usize);
    assert(start_positions(MatchType::Contains, n, len) == anywhere);
    assert(anywhere[start] as int == start);
    let seg = body.subrange(start, start + len);
    let h = hit_at(body, p, start, len as int);
    assert(h =~= seq![seg]);
    assert(h[0] == seg);
    assert(h.contains(seg));
    lemma_hit_in_segments(body, p, anywhere, start);
}

} // verus!
