//! Shape patterns ("aabb", "abcd", ...) and digit runs ("straights").
use vstd::prelude::*;
use crate::text::chars_of;

verus! {

/// Strict order of characters by code point.
pub open spec fn char_lt(a: char, b: char) -> bool {
    (a as int) < (b as int)
}

/// Positions that carry the same letter in the shape carry the same
/// character in the segment, and only those.
pub open spec fn same_classes(v: Seq<char>, s: Seq<char>, n: int) -> bool {
    forall|i: int, j: int|
        0 <= i < n && 0 <= j < n ==> (#[trigger] s[i] == #[trigger] s[j] <==> v[i] == v[j])
}

/// Whenever one shape letter sorts before another, so do their characters.
pub open spec fn order_kept(v: Seq<char>, s: Seq<char>, n: int) -> bool {
    forall|i: int, j: int|
        0 <= i < n && 0 <= j < n && char_lt(#[trigger] s[i], #[trigger] s[j]) ==> char_lt(v[i], v[j])
}

/// Whenever one shape letter sorts before another, their characters sort
/// the other way round.
pub open spec fn order_reversed(v: Seq<char>, s: Seq<char>, n: int) -> bool {
    forall|i: int, j: int|
        0 <= i < n && 0 <= j < n && char_lt(#[trigger] s[i], #[trigger] s[j]) ==> char_lt(v[j], v[i])
}

/// A segment has a shape when both have the same length, equal letters of
/// the shape stand for equal characters and distinct letters for distinct
/// characters, and the characters keep the letters' order throughout or
/// reverse it throughout.
pub open spec fn spec_shape_matches(v: Seq<char>, s: Seq<char>) -> bool {
    &&& v.len() == s.len()
    &&& same_classes(v, s, s.len() as int)
    &&& (order_kept(v, s, s.len() as int) || order_reversed(v, s, s.len() as int))
}

/// A pair of positions whose letters and characters are both in order.
pub open spec fn rising_pair(v: Seq<char>, s: Seq<char>, i: int, j: int) -> bool {
    char_lt(s[i], s[j]) && char_lt(v[i], v[j])
}

/// A pair of positions whose letters are in order and whose characters are not.
pub open spec fn falling_pair(v: Seq<char>, s: Seq<char>, i: int, j: int) -> bool {
    char_lt(s[i], s[j]) && char_lt(v[j], v[i])
}

/// A rising pair refutes a reversed order; a falling pair refutes a kept order.
proof fn lemma_pairs_refute(v: Seq<char>, s: Seq<char>, n: int, a: int, b: int, c: int, d: int)
    requires
        0 <= a < n,
        0 <= b < n,
        0 <= c < n,
        0 <= d < n,
        rising_pair(v, s, a, b),
        falling_pair(v, s, c, d),
    ensures
        !order_kept(v, s, n),
        !order_reversed(v, s, n),
{
    assert(char_lt(s[c], s[d]));
    assert(char_lt(s[a], s[b]));
}

/// Decides whether `segment` has the shape `shape` (see `spec_shape_matches`):
/// "1122" has the shape "aabb", "9876" the shape "abcd".
pub fn shape_matches(segment: &str, shape: &str) -> (r: bool)
    ensures
        r == spec_shape_matches(segment@, shape@),
{
    let v = chars_of(segment);
    let s = chars_of(shape);
    if v.len() != s.len() {
        return false;
    }
    let n = s.len();
    let ghost vs = v@;
    let ghost ss = s@;
    // the classes met so far: one segment character and one shape letter each
    let mut map_v: Vec<char> = Vec::new();
    let mut map_s: Vec<char> = Vec::new();
    // 0: no two classes compared yet, 1: same direction, -1: opposite direction
    let mut dir: i8 = 0;
    let ghost mut cls: Seq<int> = Seq::empty();
    let ghost mut rep: Seq<int> = Seq::empty();
    let ghost mut wa: int = 0;
    let ghost mut wb: int = 0;
    let mut k: usize = 0;
    while k < n
        invariant
            v@ == vs,
            s@ == ss,
            vs == segment@,
            ss == shape@,
            vs.len() == n,
            ss.len() == n,
            k <= n,
            map_v@.len() == map_s@.len(),
            rep.len() == map_s@.len(),
            cls.len() == k,
            forall|e: int|
                0 <= e < rep.len() ==> 0 <= #[trigger] rep[e] < k && map_v@[e] == vs[rep[e]]
                    && map_s@[e] == ss[rep[e]],
            forall|i: int|
                0 <= i < k ==> 0 <= #[trigger] cls[i] < map_s@.len() && map_s@[cls[i]] == ss[i]
                    && map_v@[cls[i]] == vs[i],
            forall|e: int, f: int|
                0 <= e < map_s@.len() && 0 <= f < map_s@.len() && e != f ==> #[trigger] map_s@[e]
                    != #[trigger] map_s@[f] && map_v@[e] != map_v@[f],
            same_classes(vs, ss, k as int),
            dir == 0 || dir == 1 || dir == -1,
            dir == 0 ==> map_s@.len() <= 1,
            dir == 1 ==> order_kept(vs, ss, k as int) && 0 <= wa < k && 0 <= wb < k && rising_pair(
                vs,
                ss,
                wa,
                wb,
            ),
            dir == -1 ==> order_reversed(vs, ss, k as int) && 0 <= wa < k && 0 <= wb < k
                && falling_pair(vs, ss, wa, wb),
        decreases n - k,
    {
        let vc = v[k];
        let sc = s[k];
        // look the shape letter up
        let mut found: bool = false;
        let mut at: usize = 0;
        let mut e: usize = 0;
        while e < map_s.len()
            invariant
                map_v@.len() == map_s@.len(),
                e <= map_s@.len(),
                found ==> at < map_s@.len() && map_s@[at as int] == sc,
                !found ==> forall|f: int| 0 <= f < e ==> map_s@[f] != sc,
            decreases map_s.len() - e,
        {
            if !found && map_s[e] == sc {
                found = true;
                at = e;
            }
            e = e + 1;
        }
        if found {
            if map_v[at] != vc {
                proof {
                    let i = rep[at as int];
                    assert(ss[i] == ss[k as int]);
                    assert(vs[i] != vs[k as int]);
                    assert(!same_classes(vs, ss, n as int));
                }
                return false;
            }
            proof {
                let j = at as int;
                assert forall|a: int, b: int|
                    0 <= a < k + 1 && 0 <= b < k + 1 implies (#[trigger] ss[a] == #[trigger] ss[b]
                    <==> vs[a] == vs[b]) by {
                    if a < k && b == k {
                        assert(map_s@[cls[a]] == ss[a]);
                        if cls[a] != j {
                            assert(map_s@[cls[a]] != map_s@[j]);
                            assert(map_v@[cls[a]] != map_v@[j]);
                        }
                    } else if a == k && b < k {
                        if cls[b] != j {
                            assert(map_s@[cls[b]] != map_s@[j]);
                            assert(map_v@[cls[b]] != map_v@[j]);
                        }
                    }
                }
                let r = rep[j];
                assert(ss[r] == ss[k as int] && vs[r] == vs[k as int]);
                if dir == 1 {
                    assert forall|a: int, b: int|
                        0 <= a < k + 1 && 0 <= b < k + 1 && char_lt(
                            #[trigger] ss[a],
                            #[trigger] ss[b],
                        ) implies char_lt(vs[a], vs[b]) by {
                        let a2 = if a == k {
                            r
                        } else {
                            a
                        };
                        let b2 = if b == k {
                            r
                        } else {
                            b
                        };
                        assert(ss[a2] == ss[a] && vs[a2] == vs[a]);
                        assert(ss[b2] == ss[b] && vs[b2] == vs[b]);
                        assert(char_lt(ss[a2], ss[b2]));
                    }
                }
                if dir == -1 {
                    assert forall|a: int, b: int|
                        0 <= a < k + 1 && 0 <= b < k + 1 && char_lt(
                            #[trigger] ss[a],
                            #[trigger] ss[b],
                        ) implies char_lt(vs[b], vs[a]) by {
                        let a2 = if a == k {
                            r
                        } else {
                            a
                        };
                        let b2 = if b == k {
                            r
                        } else {
                            b
                        };
                        assert(ss[a2] == ss[a] && vs[a2] == vs[a]);
                        assert(ss[b2] == ss[b] && vs[b2] == vs[b]);
                        assert(char_lt(ss[a2], ss[b2]));
                    }
                }
                cls = cls.push(j);
            }
        } else {
            // look the segment character up
            let mut taken: bool = false;
            let mut at2: usize = 0;
            let mut e2: usize = 0;
            while e2 < map_v.len()
                invariant
                    map_v@.len() == map_s@.len(),
                    e2 <= map_v@.len(),
                    taken ==> at2 < map_v@.len() && map_v@[at2 as int] == vc,
                    !taken ==> forall|f: int| 0 <= f < e2 ==> map_v@[f] != vc,
                decreases map_v.len() - e2,
            {
                if !taken && map_v[e2] == vc {
                    taken = true;
                    at2 = e2;
                }
                e2 = e2 + 1;
            }
            if taken {
                proof {
                    let i = rep[at2 as int];
                    assert(vs[i] == vs[k as int]);
                    assert(map_s@[at2 as int] != sc);
                    assert(ss[i] != ss[k as int]);
                    assert(!same_classes(vs, ss, n as int));
                }
                return false;
            }
            // a new class: compare it with every class met so far
            let ghost dir0 = dir;
            let mut f: usize = 0;
            while f < map_s.len()
                invariant
                    v@ == vs,
                    s@ == ss,
                    vs == segment@,
                    ss == shape@,
                    vs.len() == n,
                    ss.len() == n,
                    k < n,
                    vc == vs[k as int],
                    sc == ss[k as int],
                    map_v@.len() == map_s@.len(),
                    rep.len() == map_s@.len(),
                    f <= map_s@.len(),
                    forall|e: int|
                        0 <= e < rep.len() ==> 0 <= #[trigger] rep[e] < k && map_v@[e] == vs[rep[e]]
                            && map_s@[e] == ss[rep[e]],
                    forall|g: int| 0 <= g < map_s@.len() ==> #[trigger] map_s@[g] != sc,
                    forall|g: int| 0 <= g < map_v@.len() ==> #[trigger] map_v@[g] != vc,
                    dir0 == 0 || dir0 == 1 || dir0 == -1,
                    dir == 0 || dir == 1 || dir == -1,
                    dir0 == 0 ==> map_s@.len() <= 1,
                    dir0 != 0 ==> dir == dir0,
                    dir0 == 0 && f == 0 ==> dir == 0,
                    dir0 == 0 && f > 0 ==> dir != 0,
                    dir0 == 1 ==> order_kept(vs, ss, k as int),
                    dir0 == -1 ==> order_reversed(vs, ss, k as int),
                    dir == 1 ==> 0 <= wa < k + 1 && 0 <= wb < k + 1 && rising_pair(vs, ss, wa, wb),
                    dir == -1 ==> 0 <= wa < k + 1 && 0 <= wb < k + 1 && falling_pair(
                        vs,
                        ss,
                        wa,
                        wb,
                    ),
                    dir == 1 ==> forall|g: int|
                        0 <= g < f ==> (char_lt(#[trigger] map_s@[g], sc) == char_lt(map_v@[g], vc)),
                    dir == -1 ==> forall|g: int|
                        0 <= g < f ==> (char_lt(#[trigger] map_s@[g], sc) != char_lt(map_v@[g], vc)),
                decreases map_s.len() - f,
            {
                let ps = map_s[f];
                let pv = map_v[f];
                let s_asc: bool = sc > ps;
                let v_asc: bool = vc > pv;
                let d: i8 = if s_asc == v_asc {
                    1
                } else {
                    -1
                };
                let ghost r = rep[f as int];
                proof {
                    assert(ps != sc && pv != vc);
                    assert(ps == ss[r] && pv == vs[r]);
                    assert(s_asc == char_lt(ps, sc));
                    assert(v_asc == char_lt(pv, vc));
                    assert(!s_asc ==> char_lt(sc, ps));
                    assert(!v_asc ==> char_lt(vc, pv));
                }
                if dir == 0 {
                    dir = d;
                    proof {
                        if s_asc == v_asc {
                            if s_asc {
                                wa = r;
                                wb = k as int;
                            } else {
                                wa = k as int;
                                wb = r;
                            }
                            assert(rising_pair(vs, ss, wa, wb));
                        } else {
                            if s_asc {
                                wa = r;
                                wb = k as int;
                            } else {
                                wa = k as int;
                                wb = r;
                            }
                            assert(falling_pair(vs, ss, wa, wb));
                        }
                    }
                } else if dir != d {
                    proof {
                        let (ca, cb) = if s_asc {
                            (r, k as int)
                        } else {
                            (k as int, r)
                        };
                        if d == 1 {
                            assert(rising_pair(vs, ss, ca, cb));
                            lemma_pairs_refute(vs, ss, n as int, ca, cb, wa, wb);
                        } else {
                            assert(falling_pair(vs, ss, ca, cb));
                            lemma_pairs_refute(vs, ss, n as int, wa, wb, ca, cb);
                        }
                    }
                    return false;
                }
                f = f + 1;
            }
            proof {
                let j = map_s@.len() as int;
                assert forall|a: int, b: int|
                    0 <= a < k + 1 && 0 <= b < k + 1 implies (#[trigger] ss[a] == #[trigger] ss[b]
                    <==> vs[a] == vs[b]) by {
                    if a < k && b == k {
                        assert(map_s@[cls[a]] != sc);
                        assert(map_v@[cls[a]] != vc);
                    } else if a == k && b < k {
                        assert(map_s@[cls[b]] != sc);
                        assert(map_v@[cls[b]] != vc);
                    }
                }
                if dir == 1 {
                    assert forall|a: int, b: int|
                        0 <= a < k + 1 && 0 <= b < k + 1 && char_lt(
                            #[trigger] ss[a],
                            #[trigger] ss[b],
                        ) implies char_lt(vs[a], vs[b]) by {
                        if a < k && b < k {
                            if dir0 == 0 {
                                assert(map_s@[cls[a]] == ss[a]);
                                assert(map_s@[cls[b]] == ss[b]);
                                assert(cls[a] == cls[b]);
                            }
                        } else if a < k && b == k {
                            let g = cls[a];
                            assert(char_lt(map_s@[g], sc) == char_lt(map_v@[g], vc));
                        } else if a == k && b < k {
                            let g = cls[b];
                            assert(char_lt(map_s@[g], sc) == char_lt(map_v@[g], vc));
                            assert(map_v@[g] != vc);
                        }
                    }
                }
                if dir == -1 {
                    assert forall|a: int, b: int|
                        0 <= a < k + 1 && 0 <= b < k + 1 && char_lt(
                            #[trigger] ss[a],
                            #[trigger] ss[b],
                        ) implies char_lt(vs[b], vs[a]) by {
                        if a < k && b < k {
                            if dir0 == 0 {
                                assert(map_s@[cls[a]] == ss[a]);
                                assert(map_s@[cls[b]] == ss[b]);
                                assert(cls[a] == cls[b]);
                            }
                        } else if a < k && b == k {
                            let g = cls[a];
                            assert(char_lt(map_s@[g], sc) != char_lt(map_v@[g], vc));
                            assert(map_v@[g] != vc);
                        } else if a == k && b < k {
                            let g = cls[b];
                            assert(char_lt(map_s@[g], sc) != char_lt(map_v@[g], vc));
                        }
                    }
                }
                cls = cls.push(j);
                rep = rep.push(k as int);
            }
            map_v.push(vc);
            map_s.push(sc);
        }
        k = k + 1;
    }
    proof {
        if dir == 0 {
            assert forall|a: int, b: int| 0 <= a < n && 0 <= b < n implies #[trigger] ss[a]
                == #[trigger] ss[b] by {
                assert(map_s@[cls[a]] == ss[a]);
                assert(map_s@[cls[b]] == ss[b]);
            }
            assert(order_kept(vs, ss, n as int));
        }
    }
    true
}

/// Equal shapes: every string has its own shape.
pub proof fn lemma_shape_reflexive(s: Seq<char>)
    ensures
        spec_shape_matches(s, s),
{
}

/// Having a shape is symmetric: a segment has the shape of a pattern
/// exactly when the pattern has the shape of the segment.
pub proof fn lemma_shape_symmetric(v: Seq<char>, s: Seq<char>)
    ensures
        spec_shape_matches(v, s) == spec_shape_matches(s, v),
{
    if spec_shape_matches(v, s) {
        lemma_shape_swap(v, s);
    }
    if spec_shape_matches(s, v) {
        lemma_shape_swap(s, v);
    }
}

/// Having a shape is transitive: if `a` has the shape of `b` and `b` the
/// shape of `c`, then `a` has the shape of `c`.
pub proof fn lemma_shape_transitive(a: Seq<char>, b: Seq<char>, c: Seq<char>)
    requires
        spec_shape_matches(a, b),
        spec_shape_matches(b, c),
    ensures
        spec_shape_matches(a, c),
{
    let n = c.len() as int;
    assert forall|i: int, j: int| 0 <= i < n && 0 <= j < n implies (#[trigger] c[i] == #[trigger] c[j]
        <==> a[i] == a[j]) by {
        assert(c[i] == c[j] <==> b[i] == b[j]);
        assert(b[i] == b[j] <==> a[i] == a[j]);
    }
    let ab_kept = order_kept(a, b, n);
    let bc_kept = order_kept(b, c, n);
    if ab_kept == bc_kept {
        assert forall|i: int, j: int| 0 <= i < n && 0 <= j < n && char_lt(#[trigger] c[i], #[trigger] c[j])
            implies char_lt(a[i], a[j]) by {
            if bc_kept {
                assert(char_lt(b[i], b[j]));
                assert(char_lt(a[i], a[j]));
            } else {
                assert(char_lt(b[j], b[i]));
                assert(char_lt(a[i], a[j]));
            }
        }
        assert(order_kept(a, c, n));
    } else {
        assert forall|i: int, j: int| 0 <= i < n && 0 <= j < n && char_lt(#[trigger] c[i], #[trigger] c[j])
            implies char_lt(a[j], a[i]) by {
            if bc_kept {
                assert(char_lt(b[i], b[j]));
                assert(char_lt(a[j], a[i]));
            } else {
                assert(char_lt(b[j], b[i]));
                assert(char_lt(a[j], a[i]));
            }
        }
        assert(order_reversed(a, c, n));
    }
}

proof fn lemma_shape_swap(v: Seq<char>, s: Seq<char>)
    requires
        spec_shape_matches(v, s),
    ensures
        spec_shape_matches(s, v),
{
    let n = s.len() as int;
    assert forall|i: int, j: int| 0 <= i < n && 0 <= j < n implies (#[trigger] v[i] == #[trigger] v[j]
        <==> s[i] == s[j]) by {
        assert(s[i] == s[j] <==> v[i] == v[j]);
    }
    if order_kept(v, s, n) {
        assert forall|i: int, j: int| 0 <= i < n && 0 <= j < n && char_lt(#[trigger] v[i], #[trigger] v[j])
            implies char_lt(s[i], s[j]) by {
            assert(s[i] == s[j] <==> v[i] == v[j]);
            if char_lt(s[j], s[i]) {
                assert(char_lt(v[j], v[i]));
            }
        }
        assert(order_kept(s, v, n));
    } else {
        assert forall|i: int, j: int| 0 <= i < n && 0 <= j < n && char_lt(#[trigger] v[i], #[trigger] v[j])
            implies char_lt(s[j], s[i]) by {
            assert(s[i] == s[j] <==> v[i] == v[j]);
            if char_lt(s[i], s[j]) {
                assert(char_lt(v[j], v[i]));
            }
        }
        assert(order_reversed(s, v, n));
    }
}

/// An ASCII decimal digit.
pub open spec fn is_digit(c: char) -> bool {
    48 <= (c as int) <= 57
}

/// The value of an ASCII decimal digit.
pub open spec fn digit_value(c: char) -> int {
    (c as int) - 48
}

/// Each digit is one more than the digit before it.
pub open spec fn digits_ascending(v: Seq<char>) -> bool {
    forall|i: int| 0 <= i && i + 1 < v.len() ==> #[trigger] digit_value(v[i + 1]) == digit_value(v[i]) + 1
}

/// Each digit is one less than the digit before it.
pub open spec fn digits_descending(v: Seq<char>) -> bool {
    forall|i: int| 0 <= i && i + 1 < v.len() ==> digit_value(v[i]) == #[trigger] digit_value(v[i + 1]) + 1
}

/// A straight of `size`: exactly `size` decimal digits that count up by one
/// or count down by one ("1234", "8765").
pub open spec fn spec_is_straight(v: Seq<char>, size: int) -> bool {
    &&& v.len() == size
    &&& forall|i: int| 0 <= i < v.len() ==> is_digit(#[trigger] v[i])
    &&& (digits_ascending(v) || digits_descending(v))
}

/// Decides whether `segment` is a straight of `size` digits.
pub fn is_straight(segment: &str, size: usize) -> (r: bool)
    ensures
        r == spec_is_straight(segment@, size as int),
        r ==> segment@.len() == size && forall|i: int|
            0 <= i < segment@.len() ==> 48 <= #[trigger] (segment@[i] as int) <= 57,
{
    proof {
        law_straight_is_digit_run(segment@, size as int);
    }
    let chars = chars_of(segment);
    if chars.len() != size {
        return false;
    }
    let mut i: usize = 0;
    while i < chars.len()
        invariant
            chars@ == segment@,
            i <= chars.len(),
            forall|k: int| 0 <= k < i ==> is_digit(#[trigger] chars@[k]),
        decreases chars.len() - i,
    {
        let c = chars[i];
        if !('0' <= c && c <= '9') {
            return false;
        }
        i = i + 1;
    }
    let mut ascending: bool = true;
    let mut descending: bool = true;
    let mut j: usize = 1;
    while j < chars.len()
        invariant
            chars@ == segment@,
            1 <= j,
            j <= chars.len() || j == 1,
            forall|k: int| 0 <= k < chars@.len() ==> is_digit(#[trigger] chars@[k]),
            ascending == (forall|k: int| 0 <= k && k + 1 < j ==> #[trigger] digit_value(chars@[k + 1])
                == digit_value(chars@[k]) + 1),
            descending == (forall|k: int| 0 <= k && k + 1 < j ==> digit_value(chars@[k])
                == #[trigger] digit_value(chars@[k + 1]) + 1),
        decreases chars.len() - j,
    {
        let prev = chars[j - 1] as u32;
        let cur = chars[j] as u32;
        proof {
            assert(is_digit(chars@[j - 1]) && is_digit(chars@[j as int]));
        }
        if cur != prev + 1 {
            ascending = false;
        }
        if prev != cur + 1 {
            descending = false;
        }
        proof {
            let jj = j as int;
            assert(digit_value(chars@[jj]) == cur - 48);
            assert(digit_value(chars@[jj - 1]) == prev - 48);
            if !ascending {
                if cur != prev + 1 {
                    assert(!(digit_value(chars@[(jj - 1) + 1]) == digit_value(chars@[jj - 1]) + 1));
                }
            }
            if !descending {
                if prev != cur + 1 {
                    assert(!(digit_value(chars@[jj - 1]) == digit_value(chars@[(jj - 1) + 1]) + 1));
                }
            }
        }
        j = j + 1;
    }
    proof {
        if chars.len() >= 1 {
            assert(j == chars.len());
        }
        let n = chars@.len() as int;
        if ascending {
            assert forall|i: int| 0 <= i && i + 1 < n implies #[trigger] digit_value(segment@[i + 1])
                == digit_value(segment@[i]) + 1 by {
                assert(digit_value(chars@[i + 1]) == digit_value(chars@[i]) + 1);
            }
            assert(digits_ascending(segment@));
        } else {
            let k = choose|k: int|
                !(0 <= k && k + 1 < j ==> #[trigger] digit_value(chars@[k + 1]) == digit_value(
                    chars@[k],
                ) + 1);
            assert(0 <= k && k + 1 < j);
            assert(!(digit_value(segment@[k + 1]) == digit_value(segment@[k]) + 1));
            assert(!digits_ascending(segment@));
        }
        if descending {
            assert forall|i: int| 0 <= i && i + 1 < n implies digit_value(segment@[i])
                == #[trigger] digit_value(segment@[i + 1]) + 1 by {
                assert(digit_value(chars@[i]) == digit_value(chars@[i + 1]) + 1);
            }
        } else {
            let k = choose|k: int|
                !(0 <= k && k + 1 < j ==> digit_value(chars@[k]) == #[trigger] digit_value(
                    chars@[k + 1],
                ) + 1);
            assert(!(digit_value(segment@[k]) == digit_value(segment@[k + 1]) + 1));
        }
        assert(ascending == digits_ascending(segment@));
        assert(descending == digits_descending(segment@));
    }
    ascending || descending
}

/// A straight read backwards is still a straight.
pub proof fn lemma_straight_reversed(v: Seq<char>, size: int)
    requires
        spec_is_straight(v, size),
    ensures
        spec_is_straight(v.reverse(), size),
{
    let w = v.reverse();
    let n = v.len() as int;
    assert forall|i: int| 0 <= i < w.len() implies is_digit(#[trigger] w[i]) by {
        assert(w[i] == v[n - 1 - i]);
    }
    if digits_ascending(v) {
        assert forall|i: int| 0 <= i && i + 1 < w.len() implies digit_value(w[i]) == #[trigger] digit_value(
            w[i + 1],
        ) + 1 by {
            let k = n - 2 - i;
            assert(w[i] == v[k + 1]);
            assert(w[i + 1] == v[k]);
            assert(digit_value(v[k + 1]) == digit_value(v[k]) + 1);
        }
        assert(digits_descending(w));
    } else {
        assert forall|i: int| 0 <= i && i + 1 < w.len() implies #[trigger] digit_value(w[i + 1])
            == digit_value(w[i]) + 1 by {
            let k = n - 2 - i;
            assert(w[i] == v[k + 1]);
            assert(w[i + 1] == v[k]);
            assert(digit_value(v[k]) == digit_value(v[k + 1]) + 1);
        }
        assert(digits_ascending(w));
    }
}

/// A straight is exactly a run of ASCII decimal digits '0'..='9' of the
/// asked length whose code points go up by one at each step or down by one
/// at each step; in particular a straight never holds a letter.
pub proof fn law_straight_is_digit_run(v: Seq<char>, size: int)
    ensures
        spec_is_straight(v, size) <==> {
            &&& v.len() == size
            &&& forall|i: int| 0 <= i < v.len() ==> 48 <= #[trigger] (v[i] as int) <= 57
            &&& ((forall|i: int| 0 <= i && i + 1 < v.len() ==> #[trigger] (v[i + 1] as int) == (v[i] as int) + 1)
                || (forall|i: int| 0 <= i && i + 1 < v.len() ==> (v[i] as int) == #[trigger] (v[i + 1] as int) + 1))
        },
{
    assert(digits_ascending(v) <==> (forall|i: int| 0 <= i && i + 1 < v.len() ==> #[trigger] (v[i + 1] as int)
        == (v[i] as int) + 1)) by {
        if digits_ascending(v) {
            assert forall|i: int| 0 <= i && i + 1 < v.len() implies #[trigger] (v[i + 1] as int) == (v[i] as int) + 1 by {
                assert(digit_value(v[i + 1]) == digit_value(v[i]) + 1);
            }
        }
        if forall|i: int| 0 <= i && i + 1 < v.len() ==> #[trigger] (v[i + 1] as int) == (v[i] as int) + 1 {
            assert forall|i: int| 0 <= i && i + 1 < v.len() implies #[trigger] digit_value(v[i + 1]) == digit_value(v[i]) + 1 by {
                assert((v[i + 1] as int) == (v[i] as int) + 1);
            }
        }
    }
    assert(digits_descending(v) <==> (forall|i: int| 0 <= i && i + 1 < v.len() ==> (v[i] as int)
        == #[trigger] (v[i + 1] as int) + 1)) by {
        if digits_descending(v) {
            assert forall|i: int| 0 <= i && i + 1 < v.len() implies (v[i] as int) == #[trigger] (v[i + 1] as int) + 1 by {
                assert(digit_value(v[i]) == digit_value(v[i + 1]) + 1);
            }
        }
        if forall|i: int| 0 <= i && i + 1 < v.len() ==> (v[i] as int) == #[trigger] (v[i + 1] as int) + 1 {
            assert forall|i: int| 0 <= i && i + 1 < v.len() implies digit_value(v[i]) == #[trigger] digit_value(v[i + 1]) + 1 by {
                assert((v[i] as int) == (v[i + 1] as int) + 1);
            }
        }
    }
    assert((forall|i: int| 0 <= i < v.len() ==> is_digit(#[trigger] v[i])) <==> (forall|i: int|
        0 <= i < v.len() ==> 48 <= #[trigger] (v[i] as int) <= 57)) by {
        if forall|i: int| 0 <= i < v.len() ==> is_digit(#[trigger] v[i]) {
            assert forall|i: int| 0 <= i < v.len() implies 48 <= #[trigger] (v[i] as int) <= 57 by {
                assert(is_digit(v[i]));
            }
        }
        if forall|i: int| 0 <= i < v.len() ==> 48 <= #[trigger] (v[i] as int) <= 57 {
            assert forall|i: int| 0 <= i < v.len() implies is_digit(#[trigger] v[i]) by {
                assert(48 <= (v[i] as int) <= 57);
            }
        }
    }
}

} // verus!
