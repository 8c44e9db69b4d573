//! Comparison of dotted-numeric version strings.
//!
//! A version string is read as a sequence of non-negative integers: one
//! optional leading `v` is stripped, the rest is split on `.`, and every
//! segment that is not a plain decimal number fitting in `u32` is silently
//! dropped. Comparison is element by element, with a longer sequence beating
//! an equal prefix.

use vstd::prelude::*;

verus! {

/// A decimal digit.
pub open spec fn is_digit_char(c: char) -> bool {
    '0' <= c && c <= '9'
}

/// The numeric value of a decimal digit.
pub open spec fn digit_val(c: char) -> nat {
    ((c as int) - ('0' as int)) as nat
}

/// The value of a sequence of decimal digits, most significant first.
pub open spec fn seg_val(s: Seq<char>) -> nat
    decreases s.len(),
{
    if s.len() == 0 {
        0
    } else {
        seg_val(s.drop_last()) * 10 + digit_val(s.last())
    }
}

/// A segment that parses as an integer: non-empty, all digits, fits in `u32`.
pub open spec fn is_numeric_seg(s: Seq<char>) -> bool {
    &&& s.len() > 0
    &&& (forall|i: int| 0 <= i < s.len() ==> is_digit_char(s[i]))
    &&& seg_val(s) <= u32::MAX
}

/// The segments of `s` between the dots, in order. Splitting the empty
/// string yields one empty segment, and every dot opens a new segment,
/// as `split('.')` does.
pub open spec fn split_dots(s: Seq<char>) -> Seq<Seq<char>>
    decreases s.len(),
{
    if s.len() == 0 {
        seq![Seq::<char>::empty()]
    } else if s.last() == '.' {
        split_dots(s.drop_last()).push(Seq::<char>::empty())
    } else {
        let parts = split_dots(s.drop_last());
        parts.update(parts.len() - 1, parts.last().push(s.last()))
    }
}

/// The values of the numeric segments among `parts`, in order.
pub open spec fn numeric_segs(parts: Seq<Seq<char>>) -> Seq<nat>
    decreases parts.len(),
{
    if parts.len() == 0 {
        Seq::<nat>::empty()
    } else {
        let rest = numeric_segs(parts.drop_last());
        if is_numeric_seg(parts.last()) {
            rest.push(seg_val(parts.last()))
        } else {
            rest
        }
    }
}

/// One optional leading `v` is stripped before splitting.
pub open spec fn strip_v(s: Seq<char>) -> Seq<char> {
    if s.len() > 0 && s[0] == 'v' {
        s.drop_first()
    } else {
        s
    }
}

/// The integer sequence that a version string denotes.
pub open spec fn version_nums(s: Seq<char>) -> Seq<nat> {
    numeric_segs(split_dots(strip_v(s)))
}

/// Strict "newer than" on integer sequences: at the first differing
/// position the larger element wins; an equal prefix loses to the longer
/// sequence.
pub open spec fn seq_newer(cur: Seq<nat>, cand: Seq<nat>) -> bool
    decreases cur.len(),
{
    if cur.len() == 0 {
        cand.len() > 0
    } else if cand.len() == 0 {
        false
    } else if cand[0] > cur[0] {
        true
    } else if cand[0] < cur[0] {
        false
    } else {
        seq_newer(cur.drop_first(), cand.drop_first())
    }
}

/// `candidate` denotes a strictly newer version than `current`.
pub open spec fn spec_is_newer(current: Seq<char>, candidate: Seq<char>) -> bool {
    seq_newer(version_nums(current), version_nums(candidate))
}

/// Splitting always yields at least one segment.
proof fn lemma_split_dots_len(s: Seq<char>)
    ensures
        split_dots(s).len() >= 1,
    decreases s.len(),
{
    if s.len() > 0 {
        lemma_split_dots_len(s.drop_last());
    }
}

/// Appending a digit multiplies a segment's value by ten and adds the digit.
proof fn lemma_seg_val_push(s: Seq<char>, c: char)
    ensures
        seg_val(s.push(c)) == seg_val(s) * 10 + digit_val(c),
{
    assert(s.push(c).drop_last() =~= s);
}

/// `seq_newer` never relates a sequence to itself.
proof fn lemma_seq_newer_irrefl(s: Seq<nat>)
    ensures
        !seq_newer(s, s),
    decreases s.len(),
{
    if s.len() > 0 {
        lemma_seq_newer_irrefl(s.drop_first());
    }
}

/// Two version strings that denote equal integer sequences: neither is
/// newer than the other, in either order.
pub proof fn lemma_equal_nums_not_newer(a: Seq<char>, b: Seq<char>)
    requires
        version_nums(a) == version_nums(b),
    ensures
        !spec_is_newer(a, b),
        !spec_is_newer(b, a),
{
    lemma_seq_newer_irrefl(version_nums(a));
}

/// Parse a version string into the values of its numeric segments.
pub fn parse_version(s: &str) -> (r: Vec<u32>)
    ensures
        r@.map_values(|x: u32| x as nat) == version_nums(s@),
{
    let n = s.unicode_len();
    let start: usize = if n > 0 && s.get_char(0) == 'v' {
        1
    } else {
        0
    };
    let ghost t = strip_v(s@);
    proof {
        assert(t =~= s@.subrange(start as int, n as int));
    }
    let mut out: Vec<u32> = Vec::new();
    let mut has_char: bool = false;
    let mut all_digits: bool = true;
    let mut fits: bool = true;
    let mut val: u64 = 0;
    let mut i: usize = start;
    while i < n
        invariant
            start <= i <= n,
            n == s@.len(),
            t == s@.subrange(start as int, n as int),
            ({
                let parts = split_dots(s@.subrange(start as int, i as int));
                let seg = parts.last();
                &&& out@.map_values(|x: u32| x as nat) == numeric_segs(parts.drop_last())
                &&& has_char == (seg.len() > 0)
                &&& all_digits == (forall|j: int| 0 <= j < seg.len() ==> is_digit_char(seg[j]))
                &&& (all_digits ==> (fits <==> seg_val(seg) <= u32::MAX))
                &&& (all_digits && fits ==> val == seg_val(seg))
            }),
        decreases n - i,
    {
        let ghost prefix = s@.subrange(start as int, i as int);
        let ghost parts = split_dots(prefix);
        let ghost seg = parts.last();
        let c = s.get_char(i);
        proof {
            lemma_split_dots_len(prefix);
            assert(s@.subrange(start as int, i + 1 as int) =~= prefix.push(c));
        }
        if c == '.' {
            let ghost parts2 = split_dots(prefix.push(c));
            proof {
                assert(prefix.push(c).drop_last() =~= prefix);
                assert(parts2 == parts.push(Seq::<char>::empty()));
                assert(parts2.drop_last() =~= parts);
            }
            if has_char && all_digits && fits {
                out.push(val as u32);
                proof {
                    assert(is_numeric_seg(seg));
                    assert(numeric_segs(parts) == numeric_segs(parts.drop_last()).push(
                        seg_val(seg),
                    ));
                    assert(out@.map_values(|x: u32| x as nat) =~= numeric_segs(parts2.drop_last()));
                }
            } else {
                proof {
                    assert(!is_numeric_seg(seg));
                    assert(numeric_segs(parts) == numeric_segs(parts.drop_last()));
                }
            }
            has_char = false;
            all_digits = true;
            fits = true;
            val = 0;
        } else {
            let ghost parts2 = split_dots(prefix.push(c));
            let ghost seg2 = seg.push(c);
            proof {
                assert(prefix.push(c).drop_last() =~= prefix);
                assert(parts2 == parts.update(parts.len() - 1, seg2));
                assert(parts2.last() == seg2);
                assert(parts2.drop_last() =~= parts.drop_last());
                lemma_seg_val_push(seg, c);
            }
            let u = c as u32;
            if 48 <= u && u <= 57 {
                proof {
                    assert(is_digit_char(c));
                    assert(digit_val(c) == u - 48);
                    if all_digits {
                        assert(forall|j: int|
                            0 <= j < seg2.len() ==> is_digit_char(#[trigger] seg2[j]));
                    } else {
                        let j = choose|j: int| 0 <= j < seg.len() && !is_digit_char(seg[j]);
                        assert(!is_digit_char(seg2[j]));
                    }
                }
                if all_digits && fits {
                    let d = (u - 48) as u64;
                    let nv = val * 10 + d;
                    if nv > 0xffff_ffff {
                        fits = false;
                    } else {
                        val = nv;
                    }
                } else if all_digits {
                    proof {
                        assert(seg_val(seg2) == seg_val(seg) * 10 + digit_val(c));
                        assert(seg_val(seg) * 10 >= seg_val(seg));
                    }
                }
            } else {
                proof {
                    assert(!is_digit_char(seg2.last()));
                }
                all_digits = false;
            }
            has_char = true;
        }
        i += 1;
    }
    let ghost parts = split_dots(t);
    let ghost seg = parts.last();
    proof {
        lemma_split_dots_len(t);
        assert(s@.subrange(start as int, n as int) == t);
    }
    if has_char && all_digits && fits {
        out.push(val as u32);
        proof {
            assert(is_numeric_seg(seg));
            assert(out@.map_values(|x: u32| x as nat) =~= numeric_segs(parts));
        }
    } else {
        proof {
            assert(!is_numeric_seg(seg));
            assert(numeric_segs(parts) == numeric_segs(parts.drop_last()));
        }
    }
    out
}

/// `latest` names a strictly newer version than `current`: at the first
/// differing numeric segment the larger wins, and an equal prefix loses to
/// the longer sequence. Malformed segments are dropped, never an error.
pub fn is_newer_version(current: &str, latest: &str) -> (r: bool)
    ensures
        r == spec_is_newer(current@, latest@),
{
    let c = parse_version(current);
    let l = parse_version(latest);
    let ghost ca = c@.map_values(|x: u32| x as nat);
    let ghost la = l@.map_values(|x: u32| x as nat);
    let n: usize = if c.len() < l.len() {
        c.len()
    } else {
        l.len()
    };
    let mut i: usize = 0;
    proof {
        assert(ca.skip(0) =~= ca);
        assert(la.skip(0) =~= la);
    }
    while i < n
        invariant
            i <= n,
            n <= c.len(),
            n <= l.len(),
            n == c.len() || n == l.len(),
            ca == c@.map_values(|x: u32| x as nat),
            la == l@.map_values(|x: u32| x as nat),
            ca == version_nums(current@),
            la == version_nums(latest@),
            seq_newer(ca, la) == seq_newer(ca.skip(i as int), la.skip(i as int)),
        decreases n - i,
    {
        if l[i] > c[i] {
            proof {
                assert(la.skip(i as int)[0] == la[i as int]);
                assert(ca.skip(i as int)[0] == ca[i as int]);
            }
            return true;
        }
        if l[i] < c[i] {
            return false;
        }
        proof {
            assert(ca.skip(i as int).drop_first() =~= ca.skip(i + 1));
            assert(la.skip(i as int).drop_first() =~= la.skip(i + 1));
        }
        i += 1;
    }
    proof {
        if c.len() <= l.len() {
            assert(ca.skip(n as int).len() == 0);
        } else {
            assert(la.skip(n as int).len() == 0);
            assert(ca.skip(n as int).len() > 0);
        }
    }
    l.len() > c.len()
}

} // verus!
