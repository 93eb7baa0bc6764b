//! Parsing of discovered address text.  A discovery endpoint answers with
//! the caller's address as plain text; the caller trims surrounding
//! whitespace and hands the text here.  An IPv4 answer must be a dotted
//! quad: four decimal octets, each at most 255 and without leading zeros,
//! joined by single dots.  An IPv6 answer must be eight colon-separated
//! hexadecimal groups, or fewer groups with one double colon standing for
//! the missing all-zero groups; a dotted quad may stand in the last
//! position for the final two segments (the embedded-IPv4 notation, as in
//! `::ffff:203.0.113.7`).

use crate::dns::{DiscoveryError, Ipv4Address, Ipv6Address};
use vstd::prelude::*;
use vstd::string::StrSliceExecFns;

verus! {

/// `c` is a decimal digit.
pub open spec fn is_digit(c: char) -> bool {
    48 <= c as u32 <= 57
}

/// The value of a decimal digit.
pub open spec fn digit_val(c: char) -> int {
    c as u32 - 48
}

/// Every character of `t` is a decimal digit.
pub open spec fn all_digits(t: Seq<char>) -> bool {
    forall|i: int| 0 <= i < t.len() ==> is_digit(#[trigger] t[i])
}

/// The value of an octet text of one to three digits.
pub open spec fn octet_val(t: Seq<char>) -> int {
    if t.len() == 1 {
        digit_val(t[0])
    } else if t.len() == 2 {
        10 * digit_val(t[0]) + digit_val(t[1])
    } else if t.len() == 3 {
        100 * digit_val(t[0]) + 10 * digit_val(t[1]) + digit_val(t[2])
    } else {
        0
    }
}

/// `t` is one octet of a dotted quad: one to three digits, no leading
/// zero, value at most 255.
pub open spec fn is_octet_text(t: Seq<char>) -> bool {
    &&& 1 <= t.len() <= 3
    &&& all_digits(t)
    &&& t.len() > 1 ==> t[0] != '0'
    &&& octet_val(t) <= 255
}

/// `s` is a dotted quad whose dots stand exactly at `i < j < k`.
pub open spec fn ipv4_split_at(s: Seq<char>, i: int, j: int, k: int) -> bool {
    &&& 0 <= i < j < k < s.len()
    &&& s[i] == '.' && s[j] == '.' && s[k] == '.'
    &&& is_octet_text(s.subrange(0, i))
    &&& is_octet_text(s.subrange(i + 1, j))
    &&& is_octet_text(s.subrange(j + 1, k))
    &&& is_octet_text(s.subrange(k + 1, s.len() as int))
}

/// `s` is the text of an IPv4 address.
pub open spec fn is_ipv4_text(s: Seq<char>) -> bool {
    exists|i: int, j: int, k: int| ipv4_split_at(s, i, j, k)
}

/// `a` is the address that the dotted quad `s`, split at `i < j < k`,
/// denotes.
pub open spec fn ipv4_value_at(s: Seq<char>, i: int, j: int, k: int, a: Ipv4Address) -> bool {
    &&& a.o0 == octet_val(s.subrange(0, i))
    &&& a.o1 == octet_val(s.subrange(i + 1, j))
    &&& a.o2 == octet_val(s.subrange(j + 1, k))
    &&& a.o3 == octet_val(s.subrange(k + 1, s.len() as int))
}

/// In a dotted quad split at `i < j < k`, every dot stands at one of those
/// three positions: all other characters belong to an octet and are digits.
proof fn lemma_dot_positions(s: Seq<char>, i: int, j: int, k: int, q: int)
    requires
        ipv4_split_at(s, i, j, k),
        0 <= q < s.len(),
        s[q] == '.',
    ensures
        q == i || q == j || q == k,
{
    if q != i && q != j && q != k {
        if q < i {
            assert(s.subrange(0, i)[q] == s[q]);
            assert(is_digit(s[q]));
        } else if q < j {
            assert(s.subrange(i + 1, j)[q - (i + 1)] == s[q]);
            assert(is_digit(s[q]));
        } else if q < k {
            assert(s.subrange(j + 1, k)[q - (j + 1)] == s[q]);
            assert(is_digit(s[q]));
        } else {
            assert(s.subrange(k + 1, s.len() as int)[q - (k + 1)] == s[q]);
            assert(is_digit(s[q]));
        }
        assert(('.') as u32 == 46);
        assert(false);
    }
}

/// A dotted quad determines its own split: a complete, ordered record of
/// the string's dot positions must be exactly the three split points.
proof fn lemma_dots_shape(s: Seq<char>, dots: Seq<usize>)
    requires
        is_ipv4_text(s),
        forall|t: int|
            0 <= t < dots.len() ==> 0 <= #[trigger] dots[t] < s.len() && s[dots[t] as int] == '.',
        forall|q: int|
            0 <= q < s.len() && s[q] == '.' ==> exists|t: int| 0 <= t < dots.len() && dots[t] == q,
        forall|t1: int, t2: int| 0 <= t1 < t2 < dots.len() ==> dots[t1] < dots[t2],
    ensures
        dots.len() == 3,
        ipv4_split_at(s, dots[0] as int, dots[1] as int, dots[2] as int),
{
    let (i, j, k) = choose|i: int, j: int, k: int| ipv4_split_at(s, i, j, k);
    assert forall|t: int| 0 <= t < dots.len() implies dots[t] == i || dots[t] == j || dots[t]
        == k by {
        lemma_dot_positions(s, i, j, k, dots[t] as int);
    }
    let ti = choose|t: int| 0 <= t < dots.len() && dots[t] == i;
    let tj = choose|t: int| 0 <= t < dots.len() && dots[t] == j;
    let tk = choose|t: int| 0 <= t < dots.len() && dots[t] == k;
    assert(0 <= ti < dots.len() && dots[ti] == i);
    assert(0 <= tj < dots.len() && dots[tj] == j);
    assert(0 <= tk < dots.len() && dots[tk] == k);
    assert(ti != tj && tj != tk && ti != tk);
    assert(dots.len() >= 3);
    if dots.len() > 3 {
        assert(dots[0] < dots[1] < dots[2] < dots[3]);
        assert(false);
    }
    assert(dots[0] <= dots[ti] && dots[0] <= dots[tj] && dots[0] <= dots[tk]);
    assert(dots[0] == i);
    assert(dots[2] >= dots[ti] && dots[2] >= dots[tj] && dots[2] >= dots[tk]);
    assert(dots[2] == k);
    assert(dots[1] == j);
}

/// Reads the octet text standing at `[from, to)` of `s`: its value when it
/// is one, nothing when it is none.
fn parse_octet(s: &str, from: usize, to: usize) -> (r: Option<u8>)
    requires
        from <= to <= s@.len(),
    ensures
        r matches Some(v) ==> is_octet_text(s@.subrange(from as int, to as int)) && v == octet_val(
            s@.subrange(from as int, to as int),
        ),
        r is None ==> !is_octet_text(s@.subrange(from as int, to as int)),
{
    let ghost t = s@.subrange(from as int, to as int);
    let len = to - from;
    if len == 0 || len > 3 {
        return None;
    }
    let u0 = s.get_char(from) as u32;
    proof {
        assert(t[0] == s@[from as int]);
    }
    if !(48 <= u0 && u0 <= 57) {
        return None;
    }
    let mut value: u32 = u0 - 48;
    if len >= 2 {
        if u0 == 48 {
            proof {
                assert(('0') as u32 == 48);
            }
            return None;
        }
        let u1 = s.get_char(from + 1) as u32;
        proof {
            assert(t[1] == s@[from as int + 1]);
        }
        if !(48 <= u1 && u1 <= 57) {
            return None;
        }
        value = value * 10 + (u1 - 48);
    }
    if len == 3 {
        let u2 = s.get_char(from + 2) as u32;
        proof {
            assert(t[2] == s@[from as int + 2]);
        }
        if !(48 <= u2 && u2 <= 57) {
            return None;
        }
        value = value * 10 + (u2 - 48);
    }
    if value > 255 {
        return None;
    }
    proof {
        assert forall|x: int| 0 <= x < t.len() implies is_digit(t[x]) by {
            assert(t[x] == s@[from as int + x]);
        }
        assert(value == octet_val(t));
        if t.len() > 1 {
            assert(('0') as u32 == 48);
        }
    }
    Some(value as u8)
}

/// Reads the dotted-quad text standing at `[from, to)` of `s`: the
/// address it denotes when it is one, nothing when it is none.
fn parse_ipv4_range(s: &str, from: usize, to: usize) -> (r: Option<Ipv4Address>)
    requires
        from <= to <= s@.len(),
    ensures
        r is Some <==> is_ipv4_text(s@.subrange(from as int, to as int)),
        r matches Some(a) ==> exists|i: int, j: int, k: int|
            ipv4_split_at(s@.subrange(from as int, to as int), i, j, k) && ipv4_value_at(
                s@.subrange(from as int, to as int),
                i,
                j,
                k,
                a,
            ),
{
    let ghost t = s@.subrange(from as int, to as int);
    let n = to - from;
    let mut dots: Vec<usize> = Vec::new();
    let mut p: usize = 0;
    while p < n
        invariant
            from <= to <= s@.len(),
            n == to - from,
            t == s@.subrange(from as int, to as int),
            0 <= p <= n,
            forall|x: int|
                0 <= x < dots@.len() ==> 0 <= #[trigger] dots@[x] < p && t[dots@[x] as int]
                    == '.',
            forall|q: int|
                0 <= q < p && t[q] == '.' ==> exists|x: int|
                    0 <= x < dots@.len() && dots@[x] == q,
            forall|x1: int, x2: int| 0 <= x1 < x2 < dots@.len() ==> dots@[x1] < dots@[x2],
        decreases n - p,
    {
        proof {
            assert(t[p as int] == s@[from as int + p as int]);
        }
        let c = s.get_char(from + p) as u32;
        proof {
            assert(('.') as u32 == 46);
        }
        if c == 46 {
            let ghost pre = dots@;
            dots.push(p);
            proof {
                assert(dots@[dots@.len() - 1] == p);
                assert forall|q: int| 0 <= q < p + 1 && t[q] == '.' implies exists|x: int|
                    0 <= x < dots@.len() && dots@[x] == q by {
                    if q < p {
                        let x0 = choose|x: int| 0 <= x < pre.len() && pre[x] == q;
                        assert(dots@[x0] == q);
                    } else {
                        assert(dots@[dots@.len() - 1] == q);
                    }
                }
            }
        } else {
            proof {
                if t[p as int] == '.' {
                    assert(t[p as int] as u32 == 46);
                    assert(false);
                }
            }
        }
        p = p + 1;
    }
    if dots.len() != 3 {
        proof {
            if is_ipv4_text(t) {
                lemma_dots_shape(t, dots@);
                assert(false);
            }
        }
        return None;
    }
    let d0 = dots[0];
    let d1 = dots[1];
    let d2 = dots[2];
    proof {
        if is_ipv4_text(t) {
            lemma_dots_shape(t, dots@);
        }
        assert(t.subrange(0, d0 as int) =~= s@.subrange(from as int, from as int + d0 as int));
        assert(t.subrange(d0 as int + 1, d1 as int) =~= s@.subrange(
            from as int + d0 as int + 1,
            from as int + d1 as int,
        ));
        assert(t.subrange(d1 as int + 1, d2 as int) =~= s@.subrange(
            from as int + d1 as int + 1,
            from as int + d2 as int,
        ));
        assert(t.subrange(d2 as int + 1, n as int) =~= s@.subrange(
            from as int + d2 as int + 1,
            to as int,
        ));
    }
    let o0 = parse_octet(s, from, from + d0);
    let o1 = parse_octet(s, from + d0 + 1, from + d1);
    let o2 = parse_octet(s, from + d1 + 1, from + d2);
    let o3 = parse_octet(s, from + d2 + 1, to);
    match (o0, o1, o2, o3) {
        (Some(v0), Some(v1), Some(v2), Some(v3)) => {
            let a = Ipv4Address { o0: v0, o1: v1, o2: v2, o3: v3 };
            proof {
                assert(ipv4_split_at(t, d0 as int, d1 as int, d2 as int));
                assert(ipv4_value_at(t, d0 as int, d1 as int, d2 as int, a));
            }
            Some(a)
        },
        _ => {
            proof {
                if is_ipv4_text(t) {
                    assert(ipv4_split_at(t, d0 as int, d1 as int, d2 as int));
                    assert(false);
                }
            }
            None
        },
    }
}

/// Parses the text of an IPv4 address.  Succeeds exactly on a dotted quad
/// and returns the address it denotes; any other text is rejected as an
/// invalid address.
pub fn parse_ipv4_text(s: &str) -> (r: Result<Ipv4Address, DiscoveryError>)
    ensures
        r is Ok <==> is_ipv4_text(s@),
        r matches Ok(a) ==> exists|i: int, j: int, k: int|
            ipv4_split_at(s@, i, j, k) && ipv4_value_at(s@, i, j, k, a),
{
    proof {
        assert(s@.subrange(0, s@.len() as int) =~= s@);
    }
    match parse_ipv4_range(s, 0, s.unicode_len()) {
        Some(a) => Ok(a),
        None => Err(DiscoveryError::InvalidAddress(s.to_owned())),
    }
}

/// `c` is a hexadecimal digit.
pub open spec fn is_hex_digit(c: char) -> bool {
    48 <= c as u32 <= 57 || 97 <= c as u32 <= 102 || 65 <= c as u32 <= 70
}

/// The value of a hexadecimal digit.
pub open spec fn hex_val(c: char) -> int {
    if 48 <= c as u32 <= 57 {
        c as u32 - 48
    } else if 97 <= c as u32 <= 102 {
        c as u32 - 87
    } else {
        c as u32 - 55
    }
}

/// Every character of `t` is a hexadecimal digit.
pub open spec fn all_hex(t: Seq<char>) -> bool {
    forall|i: int| 0 <= i < t.len() ==> is_hex_digit(#[trigger] t[i])
}

/// The value of a group text of one to four hexadecimal digits.
pub open spec fn group_val(t: Seq<char>) -> int {
    if t.len() == 1 {
        hex_val(t[0])
    } else if t.len() == 2 {
        16 * hex_val(t[0]) + hex_val(t[1])
    } else if t.len() == 3 {
        256 * hex_val(t[0]) + 16 * hex_val(t[1]) + hex_val(t[2])
    } else if t.len() == 4 {
        4096 * hex_val(t[0]) + 256 * hex_val(t[1]) + 16 * hex_val(t[2]) + hex_val(t[3])
    } else {
        0
    }
}

/// `t` is one group of an IPv6 text: one to four hexadecimal digits.
pub open spec fn is_group_text(t: Seq<char>) -> bool {
    1 <= t.len() <= 4 && all_hex(t)
}

/// The positions of the colons of `s`, in increasing order.
pub open spec fn colons_of(s: Seq<char>) -> Seq<int>
    decreases s.len(),
{
    if s.len() == 0 {
        Seq::<int>::empty()
    } else if s.last() == ':' {
        colons_of(s.drop_last()).push(s.len() - 1)
    } else {
        colons_of(s.drop_last())
    }
}

/// Every recorded position is a colon below the length, every colon is
/// recorded, and the record is strictly increasing.
pub proof fn lemma_colons_of_props(s: Seq<char>)
    ensures
        forall|t: int|
            0 <= t < colons_of(s).len() ==> 0 <= #[trigger] colons_of(s)[t] < s.len()
                && s[colons_of(s)[t]] == ':',
        forall|q: int|
            0 <= q < s.len() && s[q] == ':' ==> exists|t: int|
                0 <= t < colons_of(s).len() && colons_of(s)[t] == q,
        forall|t1: int, t2: int|
            0 <= t1 < t2 < colons_of(s).len() ==> colons_of(s)[t1] < colons_of(s)[t2],
    decreases s.len(),
{
    if s.len() > 0 {
        lemma_colons_of_props(s.drop_last());
        assert(forall|x: int| 0 <= x < s.len() - 1 ==> s.drop_last()[x] == s[x]);
        let pre = colons_of(s.drop_last());
        assert forall|q: int|
            0 <= q < s.len() && s[q] == ':' implies exists|t: int|
            0 <= t < colons_of(s).len() && colons_of(s)[t] == q by {
            if q < s.len() - 1 {
                let t0 = choose|t: int| 0 <= t < pre.len() && pre[t] == q;
                assert(colons_of(s)[t0] == q);
            } else {
                assert(s.last() == ':');
                assert(colons_of(s)[colons_of(s).len() - 1] == q);
            }
        }
    }
}

/// The text of part `t` of `s` when its parts are delimited by the colons
/// at `cols`: what stands between colon `t - 1` and colon `t`.
pub open spec fn part_at(s: Seq<char>, cols: Seq<int>, t: int) -> Seq<char> {
    s.subrange(
        if t == 0 {
            0
        } else {
            cols[t - 1] + 1
        },
        if t == cols.len() {
            s.len() as int
        } else {
            cols[t]
        },
    )
}

/// Part `t` is a hexadecimal group.
pub open spec fn group_at(s: Seq<char>, cols: Seq<int>, t: int) -> bool {
    is_group_text(part_at(s, cols, t))
}

/// Part `t` is empty: two adjacent colons, or a colon at an end of `s`.
pub open spec fn empty_at(s: Seq<char>, cols: Seq<int>, t: int) -> bool {
    part_at(s, cols, t).len() == 0
}

/// The eight 16-bit segments of `a`, in textual order.
pub open spec fn segments_of(a: Ipv6Address) -> Seq<int> {
    seq![
        a.s0 as int,
        a.s1 as int,
        a.s2 as int,
        a.s3 as int,
        a.s4 as int,
        a.s5 as int,
        a.s6 as int,
        a.s7 as int,
    ]
}

/// Eight colon-separated groups: part `t` gives segment `t`.
pub open spec fn full_form(s: Seq<char>, cols: Seq<int>, segs: Seq<int>) -> bool {
    &&& cols.len() == 7
    &&& forall|t: int| 0 <= t <= 7 ==> group_at(s, cols, t)
    &&& forall|t: int| 0 <= t <= 7 ==> segs[t] == group_val(part_at(s, cols, t))
}

/// A double colon inside the text: the groups before part `t` give the
/// leading segments, the missing groups are zero, the groups after give
/// the trailing segments.
pub open spec fn mid_form_at(s: Seq<char>, cols: Seq<int>, t: int, segs: Seq<int>) -> bool {
    let m = cols.len() as int;
    &&& m <= 7
    &&& 1 <= t <= m - 1
    &&& empty_at(s, cols, t)
    &&& forall|t2: int| 0 <= t2 <= m && t2 != t ==> group_at(s, cols, t2)
    &&& forall|u: int| 0 <= u < t ==> segs[u] == group_val(part_at(s, cols, u))
    &&& forall|u: int| t <= u < t + 8 - m ==> segs[u] == 0
    &&& forall|v: int| t + 1 <= v <= m ==> segs[7 - m + v] == group_val(part_at(s, cols, v))
}

/// A double colon at the start: zeros first, then the groups.
pub open spec fn lead_form(s: Seq<char>, cols: Seq<int>, segs: Seq<int>) -> bool {
    let m = cols.len() as int;
    &&& 2 <= m <= 8
    &&& empty_at(s, cols, 0)
    &&& empty_at(s, cols, 1)
    &&& forall|t2: int| 2 <= t2 <= m ==> group_at(s, cols, t2)
    &&& forall|u: int| 0 <= u < 9 - m ==> segs[u] == 0
    &&& forall|v: int| 2 <= v <= m ==> segs[7 - m + v] == group_val(part_at(s, cols, v))
}

/// A double colon at the end: the groups first, then zeros.
pub open spec fn trail_form(s: Seq<char>, cols: Seq<int>, segs: Seq<int>) -> bool {
    let m = cols.len() as int;
    &&& 2 <= m <= 8
    &&& empty_at(s, cols, m - 1)
    &&& empty_at(s, cols, m)
    &&& forall|t2: int| 0 <= t2 <= m - 2 ==> group_at(s, cols, t2)
    &&& forall|u: int| 0 <= u <= m - 2 ==> segs[u] == group_val(part_at(s, cols, u))
    &&& forall|u: int| m - 2 < u <= 7 ==> segs[u] == 0
}

/// The dotted quad `t` denotes the two 16-bit segments `hi` and `lo`:
/// its four octets taken pairwise, as the embedded-IPv4 notation reads
/// the last thirty-two bits.
pub open spec fn quad_denotes(t: Seq<char>, hi: int, lo: int) -> bool {
    exists|i: int, j: int, k: int|
        ipv4_split_at(t, i, j, k) && hi == 256 * octet_val(t.subrange(0, i)) + octet_val(
            t.subrange(i + 1, j),
        ) && lo == 256 * octet_val(t.subrange(j + 1, k)) + octet_val(
            t.subrange(k + 1, t.len() as int),
        )
}

/// Six colon-separated groups, then a dotted quad standing for the last
/// two segments.
pub open spec fn full_v4_form(s: Seq<char>, cols: Seq<int>, segs: Seq<int>) -> bool {
    let m = cols.len() as int;
    &&& m == 6
    &&& forall|t: int| 0 <= t <= 5 ==> group_at(s, cols, t)
    &&& is_ipv4_text(part_at(s, cols, 6))
    &&& forall|t: int| 0 <= t <= 5 ==> segs[t] == group_val(part_at(s, cols, t))
    &&& quad_denotes(part_at(s, cols, 6), segs[6], segs[7])
}

/// A double colon inside the text and a dotted quad in the last position:
/// groups, then the missing zeros, then groups, then the quad's two
/// segments.
pub open spec fn mid_v4_form_at(s: Seq<char>, cols: Seq<int>, t: int, segs: Seq<int>) -> bool {
    let m = cols.len() as int;
    &&& m <= 6
    &&& 1 <= t <= m - 1
    &&& empty_at(s, cols, t)
    &&& forall|t2: int| 0 <= t2 <= m - 1 && t2 != t ==> group_at(s, cols, t2)
    &&& is_ipv4_text(part_at(s, cols, m))
    &&& forall|u: int| 0 <= u < t ==> segs[u] == group_val(part_at(s, cols, u))
    &&& forall|u: int| t <= u < t + 7 - m ==> segs[u] == 0
    &&& forall|v: int| t + 1 <= v <= m - 1 ==> segs[6 - m + v] == group_val(part_at(s, cols, v))
    &&& quad_denotes(part_at(s, cols, m), segs[6], segs[7])
}

/// A double colon at the start and a dotted quad in the last position:
/// zeros, then groups, then the quad's two segments.
pub open spec fn lead_v4_form(s: Seq<char>, cols: Seq<int>, segs: Seq<int>) -> bool {
    let m = cols.len() as int;
    &&& 2 <= m <= 7
    &&& empty_at(s, cols, 0)
    &&& empty_at(s, cols, 1)
    &&& forall|t2: int| 2 <= t2 <= m - 1 ==> group_at(s, cols, t2)
    &&& is_ipv4_text(part_at(s, cols, m))
    &&& forall|u: int| 0 <= u < 8 - m ==> segs[u] == 0
    &&& forall|v: int| 2 <= v <= m - 1 ==> segs[6 - m + v] == group_val(part_at(s, cols, v))
    &&& quad_denotes(part_at(s, cols, m), segs[6], segs[7])
}

/// The bare double colon: the all-zero address.
pub open spec fn zero_form(s: Seq<char>, cols: Seq<int>, segs: Seq<int>) -> bool {
    &&& cols.len() == 2
    &&& empty_at(s, cols, 0)
    &&& empty_at(s, cols, 1)
    &&& empty_at(s, cols, 2)
    &&& forall|u: int| 0 <= u <= 7 ==> segs[u] == 0
}

/// `s`, whose colons stand at `cols`, is an IPv6 text denoting the address
/// `a`.  The text is either eight colon-separated hexadecimal groups, or
/// fewer groups with one double colon standing for the missing all-zero
/// groups: in the middle, at the start, at the end, or alone (`::`); a
/// dotted quad may stand in the last position for the final two segments.
pub open spec fn ipv6_denotes(s: Seq<char>, cols: Seq<int>, a: Ipv6Address) -> bool {
    ||| full_form(s, cols, segments_of(a))
    ||| exists|t: int| mid_form_at(s, cols, t, segments_of(a))
    ||| lead_form(s, cols, segments_of(a))
    ||| trail_form(s, cols, segments_of(a))
    ||| zero_form(s, cols, segments_of(a))
    ||| full_v4_form(s, cols, segments_of(a))
    ||| exists|t: int| mid_v4_form_at(s, cols, t, segments_of(a))
    ||| lead_v4_form(s, cols, segments_of(a))
}

/// `s` is the text of an IPv6 address.
pub open spec fn is_ipv6_text(s: Seq<char>) -> bool {
    exists|a: Ipv6Address| ipv6_denotes(s, colons_of(s), a)
}

/// Reads the group text standing at `[from, to)` of `s`: its value when it
/// is one, nothing when it is none.
fn parse_group(s: &str, from: usize, to: usize) -> (r: Option<u16>)
    requires
        from <= to <= s@.len(),
    ensures
        r matches Some(v) ==> is_group_text(s@.subrange(from as int, to as int)) && v == group_val(
            s@.subrange(from as int, to as int),
        ),
        r is None ==> !is_group_text(s@.subrange(from as int, to as int)),
{
    let ghost t = s@.subrange(from as int, to as int);
    let len = to - from;
    if len == 0 || len > 4 {
        return None;
    }
    let mut value: u32 = 0;
    let mut x: usize = 0;
    while x < len
        invariant
            from <= to <= s@.len(),
            len == to - from,
            1 <= len <= 4,
            t == s@.subrange(from as int, to as int),
            0 <= x <= len,
            forall|y: int| 0 <= y < x ==> is_hex_digit(#[trigger] t[y]),
            forall|y: int| 0 <= y < x ==> 0 <= hex_val(#[trigger] t[y]) < 16,
            value < 0x10000,
            x == 0 ==> value == 0,
            x == 1 ==> value == hex_val(t[0]),
            x == 2 ==> value == 16 * hex_val(t[0]) + hex_val(t[1]),
            x == 3 ==> value == 256 * hex_val(t[0]) + 16 * hex_val(t[1]) + hex_val(t[2]),
            x == 4 ==> value == 4096 * hex_val(t[0]) + 256 * hex_val(t[1]) + 16 * hex_val(t[2])
                + hex_val(t[3]),
        decreases len - x,
    {
        let u = s.get_char(from + x) as u32;
        proof {
            assert(t[x as int] == s@[from as int + x as int]);
        }
        let d: u32 = if 48 <= u && u <= 57 {
            u - 48
        } else if 97 <= u && u <= 102 {
            u - 87
        } else if 65 <= u && u <= 70 {
            u - 55
        } else {
            return None;
        };
        value = value * 16 + d;
        x = x + 1;
    }
    proof {
        assert(value == group_val(t));
    }
    Some(value as u16)
}

/// Whether every part of `[from, to)` has a group value.
fn groups_in_range(vals: &Vec<Option<u16>>, from: usize, to: usize) -> (r: bool)
    requires
        to <= vals@.len(),
    ensures
        r == (forall|u: int| from <= u < to ==> (#[trigger] vals@[u]) is Some),
{
    let mut u = from;
    while u < to
        invariant
            from <= u,
            u <= to || u == from,
            to <= vals@.len(),
            forall|w: int| from <= w < u ==> (#[trigger] vals@[w]) is Some,
        decreases to - u,
    {
        if vals[u].is_none() {
            return false;
        }
        u = u + 1;
    }
    true
}

/// Appends the group values of parts `[from, to)` to `segs`.
fn push_vals(segs: &mut Vec<u16>, vals: &Vec<Option<u16>>, from: usize, to: usize)
    requires
        from <= to <= vals@.len(),
        forall|u: int| from <= u < to ==> (#[trigger] vals@[u]) is Some,
    ensures
        final(segs)@.len() == old(segs)@.len() + (to - from),
        forall|x: int| 0 <= x < old(segs)@.len() ==> final(segs)@[x] == old(segs)@[x],
        forall|u: int|
            from <= u < to ==> final(segs)@[old(segs)@.len() + (u - from)] == (#[trigger] vals@[u])->Some_0,
{
    let mut u = from;
    while u < to
        invariant
            from <= u <= to <= vals@.len(),
            forall|w: int| from <= w < to ==> (#[trigger] vals@[w]) is Some,
            segs@.len() == old(segs)@.len() + (u - from),
            forall|x: int| 0 <= x < old(segs)@.len() ==> segs@[x] == old(segs)@[x],
            forall|w: int|
                from <= w < u ==> segs@[old(segs)@.len() + (w - from)] == (#[trigger] vals@[w])->Some_0,
        decreases to - u,
    {
        let v = match vals[u] {
            Some(v) => v,
            None => 0,
        };
        segs.push(v);
        u = u + 1;
    }
}

/// Appends `count` zero segments to `segs`.
fn push_zeros(segs: &mut Vec<u16>, count: usize)
    ensures
        final(segs)@.len() == old(segs)@.len() + count,
        forall|x: int| 0 <= x < old(segs)@.len() ==> final(segs)@[x] == old(segs)@[x],
        forall|x: int| old(segs)@.len() <= x < old(segs)@.len() + count ==> final(segs)@[x] == 0,
{
    let mut c: usize = 0;
    while c < count
        invariant
            0 <= c <= count,
            segs@.len() == old(segs)@.len() + c,
            forall|x: int| 0 <= x < old(segs)@.len() ==> segs@[x] == old(segs)@[x],
            forall|x: int| old(segs)@.len() <= x < old(segs)@.len() + c ==> segs@[x] == 0,
        decreases count - c,
    {
        segs.push(0);
        c = c + 1;
    }
}

/// What a valid IPv6 text forces on the measured parts: given a complete,
/// ordered record of the empty parts, of which parts are groups, and of
/// whether the last part is a dotted quad, the text must fall into one of
/// the eight accepted configurations.
proof fn lemma_ipv6_shape(
    s: Seq<char>,
    cols: Seq<int>,
    vals: Seq<Option<u16>>,
    empt: Seq<bool>,
    empties: Seq<usize>,
    m: int,
    lastq: bool,
)
    requires
        is_ipv6_text(s),
        lastq == is_ipv4_text(part_at(s, cols, m)),
        cols == colons_of(s),
        m == cols.len(),
        vals.len() == m + 1,
        empt.len() == m + 1,
        forall|t2: int| 0 <= t2 <= m ==> ((#[trigger] vals[t2]) is Some <==> group_at(s, cols, t2)),
        forall|t2: int| 0 <= t2 <= m ==> (#[trigger] empt[t2]) == empty_at(s, cols, t2),
        forall|e: int|
            0 <= e < empties.len() ==> (#[trigger] empties[e]) <= m && empt[empties[e] as int],
        forall|q: int|
            0 <= q <= m && empt[q] ==> exists|e: int| 0 <= e < empties.len() && empties[e] == q,
        forall|e1: int, e2: int| 0 <= e1 < e2 < empties.len() ==> empties[e1] < empties[e2],
    ensures
        ({
        ||| (empties.len() == 0 && m == 7 && (forall|u: int|
            0 <= u <= 7 ==> (#[trigger] vals[u]) is Some))
        ||| (empties.len() == 1 && 1 <= empties[0] <= m - 1 && m <= 7 && (forall|u: int|
            0 <= u <= m && u != empties[0] ==> (#[trigger] vals[u]) is Some))
        ||| (empties.len() == 2 && empties[0] == 0 && empties[1] == 1 && 2 <= m <= 8 && (
        forall|u: int| 2 <= u <= m ==> (#[trigger] vals[u]) is Some))
        ||| (empties.len() == 2 && empties[0] == m - 1 && empties[1] == m && 2 <= m <= 8 && (
        forall|u: int| 0 <= u <= m - 2 ==> (#[trigger] vals[u]) is Some))
        ||| (empties.len() == 3 && m == 2)
        ||| (empties.len() == 0 && m == 6 && lastq && (forall|u: int|
            0 <= u <= 5 ==> (#[trigger] vals[u]) is Some))
        ||| (empties.len() == 1 && 1 <= empties[0] <= m - 1 && m <= 6 && lastq && (forall|
            u: int,
        |
            0 <= u <= m - 1 && u != empties[0] ==> (#[trigger] vals[u]) is Some))
        ||| (empties.len() == 2 && empties[0] == 0 && empties[1] == 1 && 2 <= m <= 7 && lastq
            && (forall|u: int| 2 <= u <= m - 1 ==> (#[trigger] vals[u]) is Some))
        }),
{
    let a = choose|a: Ipv6Address| ipv6_denotes(s, cols, a);
    if full_form(s, cols, segments_of(a)) {
        assert forall|u: int| 0 <= u <= 7 implies (#[trigger] vals[u]) is Some by {
            assert(group_at(s, cols, u));
        }
        assert forall|q: int| 0 <= q <= m implies !empt[q] by {
            assert(group_at(s, cols, q));
        }
        if empties.len() > 0 {
            assert(empt[empties[0] as int]);
        }
    } else if exists|tt: int| mid_form_at(s, cols, tt, segments_of(a)) {
        let tt = choose|tt: int| mid_form_at(s, cols, tt, segments_of(a));
        assert(empt[tt]);
        assert forall|q: int| 0 <= q <= m && q != tt implies !empt[q] by {
            assert(group_at(s, cols, q));
        }
        assert(exists|e: int| 0 <= e < empties.len() && empties[e] == tt);
        assert forall|e: int| 0 <= e < empties.len() implies empties[e] == tt by {
            assert(empt[empties[e] as int]);
        }
        if empties.len() > 1 {
            assert(empties[0] < empties[1]);
            assert(false);
        }
        assert(empties.len() == 1);
        assert(empties[0] == tt);
        assert forall|u: int| 0 <= u <= m && u != empties[0] implies (#[trigger] vals[u])
            is Some by {
            assert(group_at(s, cols, u));
        }
    } else if lead_form(s, cols, segments_of(a)) {
        assert(empt[0] && empt[1]);
        assert forall|q: int| 2 <= q <= m implies !empt[q] by {
            assert(group_at(s, cols, q));
        }
        assert forall|e: int| 0 <= e < empties.len() implies empties[e] == 0 || empties[e]
            == 1 by {
            assert(empt[empties[e] as int]);
        }
        let e0 = choose|e: int| 0 <= e < empties.len() && empties[e] == 0;
        let e1 = choose|e: int| 0 <= e < empties.len() && empties[e] == 1;
        assert(e0 != e1);
        if empties.len() > 2 {
            assert(empties[0] < empties[1] < empties[2]);
            assert(false);
        }
        assert(empties.len() == 2);
        assert(empties[0] == 0 && empties[1] == 1);
        assert forall|u: int| 2 <= u <= m implies (#[trigger] vals[u]) is Some by {
            assert(group_at(s, cols, u));
        }
    } else if trail_form(s, cols, segments_of(a)) {
        assert(empt[m - 1] && empt[m]);
        assert forall|q: int| 0 <= q <= m - 2 implies !empt[q] by {
            assert(group_at(s, cols, q));
        }
        assert forall|e: int| 0 <= e < empties.len() implies empties[e] == m - 1 || empties[e]
            == m by {
            assert(empt[empties[e] as int]);
        }
        let e0 = choose|e: int| 0 <= e < empties.len() && empties[e] == m - 1;
        let e1 = choose|e: int| 0 <= e < empties.len() && empties[e] == m;
        assert(e0 != e1);
        if empties.len() > 2 {
            assert(empties[0] < empties[1] < empties[2]);
            assert(false);
        }
        assert(empties.len() == 2);
        assert(empties[0] == m - 1 && empties[1] == m);
        assert forall|u: int| 0 <= u <= m - 2 implies (#[trigger] vals[u]) is Some by {
            assert(group_at(s, cols, u));
        }
    } else if full_v4_form(s, cols, segments_of(a)) {
        assert(m == 6);
        assert forall|u: int| 0 <= u <= 5 implies (#[trigger] vals[u]) is Some by {
            assert(group_at(s, cols, u));
        }
        assert forall|q: int| 0 <= q <= m implies !empt[q] by {
            if q <= 5 {
                assert(group_at(s, cols, q));
            } else {
                let (i, j, k) = choose|i: int, j: int, k: int|
                    ipv4_split_at(part_at(s, cols, 6), i, j, k);
                assert(part_at(s, cols, 6).len() > 0);
            }
        }
        if empties.len() > 0 {
            assert(empt[empties[0] as int]);
        }
    } else if exists|tt: int| mid_v4_form_at(s, cols, tt, segments_of(a)) {
        let tt = choose|tt: int| mid_v4_form_at(s, cols, tt, segments_of(a));
        assert(empt[tt]);
        assert forall|q: int| 0 <= q <= m && q != tt implies !empt[q] by {
            if q <= m - 1 {
                assert(group_at(s, cols, q));
            } else {
                let (i, j, k) = choose|i: int, j: int, k: int|
                    ipv4_split_at(part_at(s, cols, m), i, j, k);
                assert(part_at(s, cols, m).len() > 0);
            }
        }
        assert(exists|e: int| 0 <= e < empties.len() && empties[e] == tt);
        assert forall|e: int| 0 <= e < empties.len() implies empties[e] == tt by {
            assert(empt[empties[e] as int]);
        }
        if empties.len() > 1 {
            assert(empties[0] < empties[1]);
            assert(false);
        }
        assert(empties.len() == 1);
        assert(empties[0] == tt);
        assert forall|u: int| 0 <= u <= m - 1 && u != empties[0] implies (#[trigger] vals[u])
            is Some by {
            assert(group_at(s, cols, u));
        }
    } else if lead_v4_form(s, cols, segments_of(a)) {
        assert(empt[0] && empt[1]);
        assert forall|q: int| 2 <= q <= m implies !empt[q] by {
            if q <= m - 1 {
                assert(group_at(s, cols, q));
            } else {
                let (i, j, k) = choose|i: int, j: int, k: int|
                    ipv4_split_at(part_at(s, cols, m), i, j, k);
                assert(part_at(s, cols, m).len() > 0);
            }
        }
        assert forall|e: int| 0 <= e < empties.len() implies empties[e] == 0 || empties[e]
            == 1 by {
            assert(empt[empties[e] as int]);
        }
        let e0 = choose|e: int| 0 <= e < empties.len() && empties[e] == 0;
        let e1 = choose|e: int| 0 <= e < empties.len() && empties[e] == 1;
        assert(e0 != e1);
        if empties.len() > 2 {
            assert(empties[0] < empties[1] < empties[2]);
            assert(false);
        }
        assert(empties.len() == 2);
        assert(empties[0] == 0 && empties[1] == 1);
        assert forall|u: int| 2 <= u <= m - 1 implies (#[trigger] vals[u]) is Some by {
            assert(group_at(s, cols, u));
        }
    } else {
        assert(zero_form(s, cols, segments_of(a)));
        assert(m == 2);
        assert(empt[0] && empt[1] && empt[2]);
        let e0 = choose|e: int| 0 <= e < empties.len() && empties[e] == 0;
        let e1 = choose|e: int| 0 <= e < empties.len() && empties[e] == 1;
        let e2 = choose|e: int| 0 <= e < empties.len() && empties[e] == 2;
        assert(e0 != e1 && e1 != e2 && e0 != e2);
        assert(empties.len() >= 3);
        if empties.len() > 3 {
            assert(empties[0] < empties[1] < empties[2] < empties[3]);
            assert(empties[3] <= m);
            assert(false);
        }
    }
}

/// The segments assembled for the full eight-group form satisfy it.
proof fn lemma_full_ok(
    s: Seq<char>,
    cols: Seq<int>,
    vals: Seq<Option<u16>>,
    segs: Seq<u16>,
    a: Ipv6Address,
)
    requires
        cols.len() == 7,
        vals.len() == 8,
        forall|t2: int| 0 <= t2 <= 7 ==> ((#[trigger] vals[t2]) is Some <==> group_at(s, cols, t2)),
        forall|t2: int|
            0 <= t2 <= 7 ==> ((#[trigger] vals[t2]) matches Some(v) ==> v == group_val(
                part_at(s, cols, t2),
            )),
        forall|u: int| 0 <= u <= 7 ==> (#[trigger] vals[u]) is Some,
        segs.len() == 8,
        forall|u: int| 0 <= u < 8 ==> segs[u] == (#[trigger] vals[u])->Some_0,
        segments_of(a) == segs.map_values(|v: u16| v as int),
    ensures
        full_form(s, cols, segments_of(a)),
{
    assert forall|t: int| 0 <= t <= 7 implies group_at(s, cols, t) && segments_of(a)[t]
        == group_val(part_at(s, cols, t)) by {
        assert(vals[t] is Some);
        assert(segs[t] == vals[t]->Some_0);
        assert(segments_of(a)[t] == segs[t] as int);
    }
}

/// The segments assembled around a middle double colon satisfy that form.
proof fn lemma_mid_ok(
    s: Seq<char>,
    cols: Seq<int>,
    vals: Seq<Option<u16>>,
    segs: Seq<u16>,
    a: Ipv6Address,
    te: int,
    m: int,
)
    requires
        m == cols.len(),
        m <= 7,
        1 <= te <= m - 1,
        vals.len() == m + 1,
        empty_at(s, cols, te),
        forall|t2: int| 0 <= t2 <= m ==> ((#[trigger] vals[t2]) is Some <==> group_at(s, cols, t2)),
        forall|t2: int|
            0 <= t2 <= m ==> ((#[trigger] vals[t2]) matches Some(v) ==> v == group_val(
                part_at(s, cols, t2),
            )),
        forall|u: int| 0 <= u <= m && u != te ==> (#[trigger] vals[u]) is Some,
        segs.len() == 8,
        forall|u: int| 0 <= u < te ==> segs[u] == (#[trigger] vals[u])->Some_0,
        forall|u: int| te <= u < te + 8 - m ==> (#[trigger] segs[u]) == 0,
        forall|v: int|
            te + 1 <= v <= m ==> (#[trigger] segs[te + (8 - m) + (v - (te + 1))]) == vals[v]->Some_0,
        segments_of(a) == segs.map_values(|v: u16| v as int),
    ensures
        mid_form_at(s, cols, te, segments_of(a)),
{
    assert forall|t2: int| 0 <= t2 <= m && t2 != te implies group_at(s, cols, t2) by {
        assert(vals[t2] is Some);
    }
    assert forall|u: int| 0 <= u < te implies segments_of(a)[u] == group_val(
        part_at(s, cols, u),
    ) by {
        assert(segs[u] == vals[u]->Some_0);
        assert(segments_of(a)[u] == segs[u] as int);
    }
    assert forall|u: int| te <= u < te + 8 - m implies segments_of(a)[u] == 0 by {
        assert(segs[u] == 0);
        assert(segments_of(a)[u] == segs[u] as int);
    }
    assert forall|v: int| te + 1 <= v <= m implies segments_of(a)[7 - m + v] == group_val(
        part_at(s, cols, v),
    ) by {
        assert(segs[te + (8 - m) + (v - (te + 1))] == vals[v]->Some_0);
        assert(7 - m + v == te + (8 - m) + (v - (te + 1)));
        assert(segments_of(a)[7 - m + v] == segs[7 - m + v] as int);
    }
}

/// The segments assembled after a leading double colon satisfy that form.
proof fn lemma_lead_ok(
    s: Seq<char>,
    cols: Seq<int>,
    vals: Seq<Option<u16>>,
    segs: Seq<u16>,
    a: Ipv6Address,
    m: int,
)
    requires
        m == cols.len(),
        2 <= m <= 8,
        vals.len() == m + 1,
        empty_at(s, cols, 0),
        empty_at(s, cols, 1),
        forall|t2: int| 0 <= t2 <= m ==> ((#[trigger] vals[t2]) is Some <==> group_at(s, cols, t2)),
        forall|t2: int|
            0 <= t2 <= m ==> ((#[trigger] vals[t2]) matches Some(v) ==> v == group_val(
                part_at(s, cols, t2),
            )),
        forall|u: int| 2 <= u <= m ==> (#[trigger] vals[u]) is Some,
        segs.len() == 8,
        forall|u: int| 0 <= u < 9 - m ==> (#[trigger] segs[u]) == 0,
        forall|v: int| 2 <= v <= m ==> (#[trigger] segs[(9 - m) + (v - 2)]) == vals[v]->Some_0,
        segments_of(a) == segs.map_values(|v: u16| v as int),
    ensures
        lead_form(s, cols, segments_of(a)),
{
    assert forall|t2: int| 2 <= t2 <= m implies group_at(s, cols, t2) by {
        assert(vals[t2] is Some);
    }
    assert forall|u: int| 0 <= u < 9 - m implies segments_of(a)[u] == 0 by {
        assert(segs[u] == 0);
        assert(segments_of(a)[u] == segs[u] as int);
    }
    assert forall|v: int| 2 <= v <= m implies segments_of(a)[7 - m + v] == group_val(
        part_at(s, cols, v),
    ) by {
        assert(segs[(9 - m) + (v - 2)] == vals[v]->Some_0);
        assert(7 - m + v == (9 - m) + (v - 2));
        assert(segments_of(a)[7 - m + v] == segs[7 - m + v] as int);
    }
}

/// The segments assembled before a trailing double colon satisfy that form.
proof fn lemma_trail_ok(
    s: Seq<char>,
    cols: Seq<int>,
    vals: Seq<Option<u16>>,
    segs: Seq<u16>,
    a: Ipv6Address,
    m: int,
)
    requires
        m == cols.len(),
        2 <= m <= 8,
        vals.len() == m + 1,
        empty_at(s, cols, m - 1),
        empty_at(s, cols, m),
        forall|t2: int| 0 <= t2 <= m ==> ((#[trigger] vals[t2]) is Some <==> group_at(s, cols, t2)),
        forall|t2: int|
            0 <= t2 <= m ==> ((#[trigger] vals[t2]) matches Some(v) ==> v == group_val(
                part_at(s, cols, t2),
            )),
        forall|u: int| 0 <= u <= m - 2 ==> (#[trigger] vals[u]) is Some,
        segs.len() == 8,
        forall|u: int| 0 <= u < m - 1 ==> segs[u] == (#[trigger] vals[u])->Some_0,
        forall|u: int| m - 1 <= u < 8 ==> (#[trigger] segs[u]) == 0,
        segments_of(a) == segs.map_values(|v: u16| v as int),
    ensures
        trail_form(s, cols, segments_of(a)),
{
    assert forall|t2: int| 0 <= t2 <= m - 2 implies group_at(s, cols, t2) && segments_of(a)[t2]
        == group_val(part_at(s, cols, t2)) by {
        assert(vals[t2] is Some);
        assert(segs[t2] == vals[t2]->Some_0);
        assert(segments_of(a)[t2] == segs[t2] as int);
    }
    assert forall|u: int| m - 2 < u <= 7 implies segments_of(a)[u] == 0 by {
        assert(segs[u] == 0);
        assert(segments_of(a)[u] == segs[u] as int);
    }
}

/// The segments assembled for six groups and a trailing quad satisfy the
/// embedded-IPv4 full form.
proof fn lemma_full_v4_ok(
    s: Seq<char>,
    cols: Seq<int>,
    vals: Seq<Option<u16>>,
    segs: Seq<u16>,
    a: Ipv6Address,
)
    requires
        cols.len() == 6,
        vals.len() == 7,
        forall|t2: int| 0 <= t2 <= 6 ==> ((#[trigger] vals[t2]) is Some <==> group_at(s, cols, t2)),
        forall|t2: int|
            0 <= t2 <= 6 ==> ((#[trigger] vals[t2]) matches Some(v) ==> v == group_val(
                part_at(s, cols, t2),
            )),
        forall|u: int| 0 <= u < 6 ==> (#[trigger] vals[u]) is Some,
        is_ipv4_text(part_at(s, cols, 6)),
        segs.len() == 8,
        forall|u: int| 0 <= u < 6 ==> segs[u] == (#[trigger] vals[u])->Some_0,
        quad_denotes(part_at(s, cols, 6), segs[6] as int, segs[7] as int),
        segments_of(a) == segs.map_values(|v: u16| v as int),
    ensures
        full_v4_form(s, cols, segments_of(a)),
{
    assert forall|t: int| 0 <= t <= 5 implies group_at(s, cols, t) && segments_of(a)[t]
        == group_val(part_at(s, cols, t)) by {
        assert(vals[t] is Some);
        assert(segs[t] == vals[t]->Some_0);
        assert(segments_of(a)[t] == segs[t] as int);
    }
    assert(segments_of(a)[6] == segs[6] as int);
    assert(segments_of(a)[7] == segs[7] as int);
}

/// The segments assembled around a middle double colon with a trailing
/// quad satisfy that form.
proof fn lemma_mid_v4_ok(
    s: Seq<char>,
    cols: Seq<int>,
    vals: Seq<Option<u16>>,
    segs: Seq<u16>,
    a: Ipv6Address,
    te: int,
    m: int,
)
    requires
        m == cols.len(),
        m <= 6,
        1 <= te <= m - 1,
        vals.len() == m + 1,
        empty_at(s, cols, te),
        forall|t2: int| 0 <= t2 <= m ==> ((#[trigger] vals[t2]) is Some <==> group_at(s, cols, t2)),
        forall|t2: int|
            0 <= t2 <= m ==> ((#[trigger] vals[t2]) matches Some(v) ==> v == group_val(
                part_at(s, cols, t2),
            )),
        forall|u: int| 0 <= u <= m - 1 && u != te ==> (#[trigger] vals[u]) is Some,
        is_ipv4_text(part_at(s, cols, m)),
        segs.len() == 8,
        forall|u: int| 0 <= u < te ==> segs[u] == (#[trigger] vals[u])->Some_0,
        forall|u: int| te <= u < te + 7 - m ==> (#[trigger] segs[u]) == 0,
        forall|v: int|
            te + 1 <= v <= m - 1 ==> (#[trigger] segs[te + (7 - m) + (v - (te + 1))]) == vals[v]->Some_0,
        quad_denotes(part_at(s, cols, m), segs[6] as int, segs[7] as int),
        segments_of(a) == segs.map_values(|v: u16| v as int),
    ensures
        mid_v4_form_at(s, cols, te, segments_of(a)),
{
    assert forall|t2: int| 0 <= t2 <= m - 1 && t2 != te implies group_at(s, cols, t2) by {
        assert(vals[t2] is Some);
    }
    assert forall|u: int| 0 <= u < te implies segments_of(a)[u] == group_val(
        part_at(s, cols, u),
    ) by {
        assert(segs[u] == vals[u]->Some_0);
        assert(segments_of(a)[u] == segs[u] as int);
    }
    assert forall|u: int| te <= u < te + 7 - m implies segments_of(a)[u] == 0 by {
        assert(segs[u] == 0);
        assert(segments_of(a)[u] == segs[u] as int);
    }
    assert forall|v: int| te + 1 <= v <= m - 1 implies segments_of(a)[6 - m + v] == group_val(
        part_at(s, cols, v),
    ) by {
        assert(segs[te + (7 - m) + (v - (te + 1))] == vals[v]->Some_0);
        assert(6 - m + v == te + (7 - m) + (v - (te + 1)));
        assert(segments_of(a)[6 - m + v] == segs[6 - m + v] as int);
    }
    assert(segments_of(a)[6] == segs[6] as int);
    assert(segments_of(a)[7] == segs[7] as int);
}

/// The segments assembled after a leading double colon with a trailing
/// quad satisfy that form.
proof fn lemma_lead_v4_ok(
    s: Seq<char>,
    cols: Seq<int>,
    vals: Seq<Option<u16>>,
    segs: Seq<u16>,
    a: Ipv6Address,
    m: int,
)
    requires
        m == cols.len(),
        2 <= m <= 7,
        vals.len() == m + 1,
        empty_at(s, cols, 0),
        empty_at(s, cols, 1),
        forall|t2: int| 0 <= t2 <= m ==> ((#[trigger] vals[t2]) is Some <==> group_at(s, cols, t2)),
        forall|t2: int|
            0 <= t2 <= m ==> ((#[trigger] vals[t2]) matches Some(v) ==> v == group_val(
                part_at(s, cols, t2),
            )),
        forall|u: int| 2 <= u <= m - 1 ==> (#[trigger] vals[u]) is Some,
        is_ipv4_text(part_at(s, cols, m)),
        segs.len() == 8,
        forall|u: int| 0 <= u < 8 - m ==> (#[trigger] segs[u]) == 0,
        forall|v: int| 2 <= v <= m - 1 ==> (#[trigger] segs[(8 - m) + (v - 2)]) == vals[v]->Some_0,
        quad_denotes(part_at(s, cols, m), segs[6] as int, segs[7] as int),
        segments_of(a) == segs.map_values(|v: u16| v as int),
    ensures
        lead_v4_form(s, cols, segments_of(a)),
{
    assert forall|t2: int| 2 <= t2 <= m - 1 implies group_at(s, cols, t2) by {
        assert(vals[t2] is Some);
    }
    assert forall|u: int| 0 <= u < 8 - m implies segments_of(a)[u] == 0 by {
        assert(segs[u] == 0);
        assert(segments_of(a)[u] == segs[u] as int);
    }
    assert forall|v: int| 2 <= v <= m - 1 implies segments_of(a)[6 - m + v] == group_val(
        part_at(s, cols, v),
    ) by {
        assert(segs[(8 - m) + (v - 2)] == vals[v]->Some_0);
        assert(6 - m + v == (8 - m) + (v - 2));
        assert(segments_of(a)[6 - m + v] == segs[6 - m + v] as int);
    }
    assert(segments_of(a)[6] == segs[6] as int);
    assert(segments_of(a)[7] == segs[7] as int);
}

/// Classifies the measured parts of a candidate IPv6 text and assembles
/// the address they denote, or rejects the text.
#[verifier::rlimit(100)]
fn classify_parts(
    s: &str,
    Ghost(colsg): Ghost<Seq<int>>,
    vals: &Vec<Option<u16>>,
    empt: &Vec<bool>,
    empties: &Vec<usize>,
    m: usize,
    quad: Option<Ipv4Address>,
) -> (r: Result<Ipv6Address, DiscoveryError>)
    requires
        colsg == colons_of(s@),
        quad is Some <==> is_ipv4_text(part_at(s@, colsg, m as int)),
        quad matches Some(qa) ==> quad_denotes(
            part_at(s@, colsg, m as int),
            256 * qa.o0 + qa.o1,
            256 * qa.o2 + qa.o3,
        ),
        m == colsg.len(),
        m <= 8,
        vals@.len() == m + 1,
        empt@.len() == m + 1,
        forall|t2: int|
            0 <= t2 <= m ==> ((#[trigger] vals@[t2]) is Some <==> group_at(s@, colsg, t2)),
        forall|t2: int|
            0 <= t2 <= m ==> ((#[trigger] vals@[t2]) matches Some(v) ==> v == group_val(
                part_at(s@, colsg, t2),
            )),
        forall|t2: int| 0 <= t2 <= m ==> (#[trigger] empt@[t2]) == empty_at(s@, colsg, t2),
        forall|e: int|
            0 <= e < empties@.len() ==> (#[trigger] empties@[e]) <= m && empt@[empties@[e] as int],
        forall|q: int|
            0 <= q <= m && empt@[q] ==> exists|e: int|
                0 <= e < empties@.len() && empties@[e] == q,
        forall|e1: int, e2: int|
            0 <= e1 < e2 < empties@.len() ==> empties@[e1] < empties@[e2],
    ensures
        r is Ok <==> is_ipv6_text(s@),
        r matches Ok(a) ==> ipv6_denotes(s@, colons_of(s@), a),
{
    if empties.len() == 0 {
        if m == 7 && groups_in_range(&vals, 0, 8) {
            let mut segs: Vec<u16> = Vec::new();
            push_vals(&mut segs, &vals, 0, 8);
            let a = Ipv6Address {
                s0: segs[0],
                s1: segs[1],
                s2: segs[2],
                s3: segs[3],
                s4: segs[4],
                s5: segs[5],
                s6: segs[6],
                s7: segs[7],
            };
            proof {
                assert(segments_of(a) =~= segs@.map_values(|v: u16| v as int));
                lemma_full_ok(s@, colsg, vals@, segs@, a);
                assert(ipv6_denotes(s@, colsg, a));
                assert(is_ipv6_text(s@));
            }
            Ok(a)
        } else if m == 6 && quad.is_some() && groups_in_range(&vals, 0, 6) {
            let qa = quad.unwrap();
            let mut segs: Vec<u16> = Vec::new();
            push_vals(&mut segs, &vals, 0, 6);
            segs.push((qa.o0 as u16) * 256 + (qa.o1 as u16));
            segs.push((qa.o2 as u16) * 256 + (qa.o3 as u16));
            let a = Ipv6Address {
                s0: segs[0],
                s1: segs[1],
                s2: segs[2],
                s3: segs[3],
                s4: segs[4],
                s5: segs[5],
                s6: segs[6],
                s7: segs[7],
            };
            proof {
                assert(segs@.len() == 8);
                assert(segs@[6] == 256 * qa.o0 + qa.o1 && segs@[7] == 256 * qa.o2 + qa.o3);
                assert(segments_of(a) =~= segs@.map_values(|v: u16| v as int));
                lemma_full_v4_ok(s@, colsg, vals@, segs@, a);
                assert(ipv6_denotes(s@, colsg, a));
                assert(is_ipv6_text(s@));
            }
            Ok(a)
        } else {
            proof {
                if is_ipv6_text(s@) {
                    lemma_ipv6_shape(s@, colsg, vals@, empt@, empties@, m as int, quad is Some);
                    assert(false);
                }
            }
            Err(DiscoveryError::InvalidAddress(s.to_owned()))
        }
    } else if empties.len() == 1 {
        let te = empties[0];
        if te >= 1 && te < m && m <= 7 && groups_in_range(&vals, 0, te) && groups_in_range(
            &vals,
            te + 1,
            m + 1,
        ) {
            let mut segs: Vec<u16> = Vec::new();
            push_vals(&mut segs, &vals, 0, te);
            push_zeros(&mut segs, 8 - m);
            push_vals(&mut segs, &vals, te + 1, m + 1);
            let a = Ipv6Address {
                s0: segs[0],
                s1: segs[1],
                s2: segs[2],
                s3: segs[3],
                s4: segs[4],
                s5: segs[5],
                s6: segs[6],
                s7: segs[7],
            };
            proof {
                assert(empt@[te as int]);
                assert(segments_of(a) =~= segs@.map_values(|v: u16| v as int));
                lemma_mid_ok(s@, colsg, vals@, segs@, a, te as int, m as int);
                assert(ipv6_denotes(s@, colsg, a));
                assert(is_ipv6_text(s@));
            }
            Ok(a)
        } else if te >= 1 && te < m && m <= 6 && quad.is_some() && groups_in_range(
            &vals,
            0,
            te,
        ) && groups_in_range(&vals, te + 1, m) {
            let qa = quad.unwrap();
            let mut segs: Vec<u16> = Vec::new();
            push_vals(&mut segs, &vals, 0, te);
            push_zeros(&mut segs, 7 - m);
            push_vals(&mut segs, &vals, te + 1, m);
            segs.push((qa.o0 as u16) * 256 + (qa.o1 as u16));
            segs.push((qa.o2 as u16) * 256 + (qa.o3 as u16));
            let a = Ipv6Address {
                s0: segs[0],
                s1: segs[1],
                s2: segs[2],
                s3: segs[3],
                s4: segs[4],
                s5: segs[5],
                s6: segs[6],
                s7: segs[7],
            };
            proof {
                assert(empt@[te as int]);
                assert(segs@.len() == 8);
                assert(segs@[6] == 256 * qa.o0 + qa.o1 && segs@[7] == 256 * qa.o2 + qa.o3);
                assert(segments_of(a) =~= segs@.map_values(|v: u16| v as int));
                lemma_mid_v4_ok(s@, colsg, vals@, segs@, a, te as int, m as int);
                assert(ipv6_denotes(s@, colsg, a));
                assert(is_ipv6_text(s@));
            }
            Ok(a)
        } else {
            proof {
                if is_ipv6_text(s@) {
                    lemma_ipv6_shape(s@, colsg, vals@, empt@, empties@, m as int, quad is Some);
                    assert(false);
                }
            }
            Err(DiscoveryError::InvalidAddress(s.to_owned()))
        }
    } else if empties.len() == 2 {
        let ea = empties[0];
        let eb = empties[1];
        if ea == 0 && eb == 1 && m >= 2 && m <= 8 && groups_in_range(&vals, 2, m + 1) {
            let mut segs: Vec<u16> = Vec::new();
            push_zeros(&mut segs, 9 - m);
            push_vals(&mut segs, &vals, 2, m + 1);
            let a = Ipv6Address {
                s0: segs[0],
                s1: segs[1],
                s2: segs[2],
                s3: segs[3],
                s4: segs[4],
                s5: segs[5],
                s6: segs[6],
                s7: segs[7],
            };
            proof {
                assert(empt@[0] && empt@[1]);
                assert(segments_of(a) =~= segs@.map_values(|v: u16| v as int));
                lemma_lead_ok(s@, colsg, vals@, segs@, a, m as int);
                assert(ipv6_denotes(s@, colsg, a));
                assert(is_ipv6_text(s@));
            }
            Ok(a)
        } else if ea == 0 && eb == 1 && m >= 2 && m <= 7 && quad.is_some() && groups_in_range(
            &vals,
            2,
            m,
        ) {
            let qa = quad.unwrap();
            let mut segs: Vec<u16> = Vec::new();
            push_zeros(&mut segs, 8 - m);
            push_vals(&mut segs, &vals, 2, m);
            segs.push((qa.o0 as u16) * 256 + (qa.o1 as u16));
            segs.push((qa.o2 as u16) * 256 + (qa.o3 as u16));
            let a = Ipv6Address {
                s0: segs[0],
                s1: segs[1],
                s2: segs[2],
                s3: segs[3],
                s4: segs[4],
                s5: segs[5],
                s6: segs[6],
                s7: segs[7],
            };
            proof {
                assert(empt@[0] && empt@[1]);
                assert(segs@.len() == 8);
                assert(segs@[6] == 256 * qa.o0 + qa.o1 && segs@[7] == 256 * qa.o2 + qa.o3);
                assert(segments_of(a) =~= segs@.map_values(|v: u16| v as int));
                lemma_lead_v4_ok(s@, colsg, vals@, segs@, a, m as int);
                assert(ipv6_denotes(s@, colsg, a));
                assert(is_ipv6_text(s@));
            }
            Ok(a)
        } else if ea + 1 == m && eb == m && m >= 2 && m <= 8 && groups_in_range(&vals, 0, m - 1) {
            let mut segs: Vec<u16> = Vec::new();
            push_vals(&mut segs, &vals, 0, m - 1);
            push_zeros(&mut segs, 9 - m);
            let a = Ipv6Address {
                s0: segs[0],
                s1: segs[1],
                s2: segs[2],
                s3: segs[3],
                s4: segs[4],
                s5: segs[5],
                s6: segs[6],
                s7: segs[7],
            };
            proof {
                assert(empt@[m - 1] && empt@[m as int]);
                assert(segments_of(a) =~= segs@.map_values(|v: u16| v as int));
                lemma_trail_ok(s@, colsg, vals@, segs@, a, m as int);
                assert(ipv6_denotes(s@, colsg, a));
                assert(is_ipv6_text(s@));
            }
            Ok(a)
        } else {
            proof {
                if is_ipv6_text(s@) {
                    lemma_ipv6_shape(s@, colsg, vals@, empt@, empties@, m as int, quad is Some);
                    assert(false);
                }
            }
            Err(DiscoveryError::InvalidAddress(s.to_owned()))
        }
    } else if empties.len() == 3 && m == 2 {
        let a = Ipv6Address { s0: 0, s1: 0, s2: 0, s3: 0, s4: 0, s5: 0, s6: 0, s7: 0 };
        proof {
            let e0 = empties@[0] as int;
            let e1 = empties@[1] as int;
            let e2 = empties@[2] as int;
            assert(0 <= e0 < e1 < e2 <= 2);
            assert(e0 == 0 && e1 == 1 && e2 == 2);
            assert(empt@[0] && empt@[1] && empt@[2]);
            assert(zero_form(s@, colsg, segments_of(a)));
                assert(ipv6_denotes(s@, colsg, a));
                assert(is_ipv6_text(s@));
        }
        Ok(a)
    } else {
        proof {
            if is_ipv6_text(s@) {
                lemma_ipv6_shape(s@, colsg, vals@, empt@, empties@, m as int, quad is Some);
                assert(false);
            }
        }
        Err(DiscoveryError::InvalidAddress(s.to_owned()))
    }
}

/// Parses the text of an IPv6 address.  Succeeds exactly on a valid text —
/// eight hexadecimal groups, or fewer with one double colon — and returns
/// the address it denotes; any other text is rejected as invalid.
#[verifier::rlimit(100)]
pub fn parse_ipv6_text(s: &str) -> (r: Result<Ipv6Address, DiscoveryError>)
    ensures
        r is Ok <==> is_ipv6_text(s@),
        r matches Ok(a) ==> ipv6_denotes(s@, colons_of(s@), a),
{
    let n = s.unicode_len();
    let mut cols: Vec<usize> = Vec::new();
    let mut p: usize = 0;
    proof {
        assert(s@.take(0) =~= Seq::<char>::empty());
        assert(cols@.map_values(|v: usize| v as int) =~= colons_of(s@.take(0)));
    }
    while p < n
        invariant
            n == s@.len(),
            0 <= p <= n,
            cols@.map_values(|v: usize| v as int) == colons_of(s@.take(p as int)),
            forall|t: int| 0 <= t < cols@.len() ==> (#[trigger] cols@[t]) < p,
        decreases n - p,
    {
        let c = s.get_char(p) as u32;
        let ghost pre = cols@;
        proof {
            assert((':') as u32 == 58);
            assert(s@.take(p as int + 1).drop_last() =~= s@.take(p as int));
            assert(s@.take(p as int + 1).last() == s@[p as int]);
        }
        if c == 58 {
            cols.push(p);
            proof {
                assert(cols@.map_values(|v: usize| v as int) =~= pre.map_values(
                    |v: usize| v as int,
                ).push(p as int));
            }
        } else {
            proof {
                if s@[p as int] == ':' {
                    assert(s@[p as int] as u32 == 58);
                    assert(false);
                }
            }
        }
        p = p + 1;
    }
    proof {
        assert(s@.take(n as int) =~= s@);
    }
    let ghost colsg = colons_of(s@);
    proof {
        lemma_colons_of_props(s@);
        assert(forall|t: int| 0 <= t < cols@.len() ==> colsg[t] == (#[trigger] cols@[t]) as int);
    }
    let m = cols.len();
    if m > 8 {
        proof {
            if is_ipv6_text(s@) {
                let a = choose|a: Ipv6Address| ipv6_denotes(s@, colsg, a);
                if exists|tt: int| mid_form_at(s@, colsg, tt, segments_of(a)) {
                    let tt = choose|tt: int| mid_form_at(s@, colsg, tt, segments_of(a));
                    assert(colsg.len() <= 7);
                }
                assert(false);
            }
        }
        return Err(DiscoveryError::InvalidAddress(s.to_owned()));
    }
    let mut vals: Vec<Option<u16>> = Vec::new();
    let mut empt: Vec<bool> = Vec::new();
    let mut t: usize = 0;
    while t <= m
        invariant
            n == s@.len(),
            m == cols@.len(),
            m <= 8,
            colsg == colons_of(s@),
            m == colsg.len(),
            forall|t2: int| 0 <= t2 < m ==> colsg[t2] == (#[trigger] cols@[t2]) as int,
            forall|t2: int| 0 <= t2 < m ==> 0 <= #[trigger] colsg[t2] < n,
            forall|t1: int, t2: int| 0 <= t1 < t2 < m ==> colsg[t1] < colsg[t2],
            0 <= t <= m + 1,
            vals@.len() == t,
            empt@.len() == t,
            forall|t2: int|
                0 <= t2 < t ==> ((#[trigger] vals@[t2]) is Some <==> group_at(s@, colsg, t2)),
            forall|t2: int|
                0 <= t2 < t ==> ((#[trigger] vals@[t2]) matches Some(v) ==> v == group_val(
                    part_at(s@, colsg, t2),
                )),
            forall|t2: int| 0 <= t2 < t ==> (#[trigger] empt@[t2]) == empty_at(s@, colsg, t2),
        decreases m + 1 - t,
    {
        let from = if t == 0 {
            0
        } else {
            cols[t - 1] + 1
        };
        let to = if t == m {
            n
        } else {
            cols[t]
        };
        proof {
            assert(from as int <= to as int <= s@.len());
            assert(part_at(s@, colsg, t as int) == s@.subrange(from as int, to as int));
        }
        let g = parse_group(s, from, to);
        vals.push(g);
        empt.push(to == from);
        t = t + 1;
    }
    let mut empties: Vec<usize> = Vec::new();
    let mut t2: usize = 0;
    while t2 <= m
        invariant
            m == cols@.len(),
            m <= 8,
            empt@.len() == m + 1,
            0 <= t2 <= m + 1,
            forall|e: int|
                0 <= e < empties@.len() ==> (#[trigger] empties@[e]) < t2 && empt@[empties@[e] as int],
            forall|q: int|
                0 <= q < t2 && empt@[q] ==> exists|e: int|
                    0 <= e < empties@.len() && empties@[e] == q,
            forall|e1: int, e2: int|
                0 <= e1 < e2 < empties@.len() ==> empties@[e1] < empties@[e2],
        decreases m + 1 - t2,
    {
        if empt[t2] {
            let ghost pre = empties@;
            empties.push(t2);
            proof {
                assert(empties@[empties@.len() - 1] == t2);
                assert forall|q: int| 0 <= q < t2 + 1 && empt@[q] implies exists|e: int|
                    0 <= e < empties@.len() && empties@[e] == q by {
                    if q < t2 {
                        let e0 = choose|e: int| 0 <= e < pre.len() && pre[e] == q;
                        assert(empties@[e0] == q);
                    } else {
                        assert(empties@[empties@.len() - 1] == q);
                    }
                }
            }
        }
        t2 = t2 + 1;
    }
    let from_m = if m == 0 {
        0
    } else {
        cols[m - 1] + 1
    };
    let quad = parse_ipv4_range(s, from_m, n);
    proof {
        assert(part_at(s@, colsg, m as int) == s@.subrange(from_m as int, n as int));
        match quad {
            Some(qa) => {
                let t = part_at(s@, colsg, m as int);
                let (i, j, k) = choose|i: int, j: int, k: int|
                    ipv4_split_at(t, i, j, k) && ipv4_value_at(t, i, j, k, qa);
                assert(quad_denotes(t, 256 * qa.o0 + qa.o1, 256 * qa.o2 + qa.o3));
            },
            None => {},
        }
    }
    classify_parts(s, Ghost(colsg), &vals, &empt, &empties, m, quad)
}

} // verus!
