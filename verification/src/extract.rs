//! PDN extraction: DEF power-grid geometry -> the topology of the resistor network.
//!
//! Every special-net wire segment becomes a chain of wire pieces with a node at every
//! polyline point, keyed by `(layer, x, y)`. Before the chain is cut, each segment is
//! split at every via location lying strictly inside it, so a via that lands
//! mid-stripe gets a node it can bridge through. At each via location the metal
//! layers present are connected in stack order (`li` = 0, `metN` = N), so a met1 rail
//! -> via stack -> met5 strap path is continuous. The nodes on the pad layer are the
//! supply; the lowest other metal carries the load.
//!
//! What a piece or a via costs (ohms, EM limits) and how much current each load node
//! draws are arithmetic on the number tokens and are left to the solver side.

use vstd::prelude::*;
use crate::num::{
    all_digits, digits_upto, is_digit, lemma_decimal_digits, push_int, spec_decimal, spec_int_str,
};
use crate::text::{chars_of, push_chars, push_str, string_of};

verus! {

broadcast use {vstd::string::group_string_axioms, crate::text::lemma_map_push};

/// The digits of `s`, in order.
pub open spec fn digits_only(s: Seq<char>) -> Seq<char>
    decreases s.len(),
{
    if s.len() == 0 {
        seq![]
    } else if is_digit(s.last()) {
        digits_only(s.drop_last()).push(s.last())
    } else {
        digits_only(s.drop_last())
    }
}

proof fn lemma_digits_only(s: Seq<char>)
    ensures
        all_digits(digits_only(s)),
    decreases s.len(),
{
    if s.len() > 0 {
        lemma_digits_only(s.drop_last());
        let d = digits_only(s.drop_last());
        if is_digit(s.last()) {
            assert forall|i: int| 0 <= i < d.push(s.last()).len() implies is_digit(
                #[trigger] d.push(s.last())[i],
            ) by {
                if i < d.len() {
                    assert(d.push(s.last())[i] == d[i]);
                }
            }
        }
    }
}

/// Position of a layer in the metal stack: `li`/`li1` (any case) are 0, otherwise the
/// number its digits spell when that fits an `i32`, and 9999 for anything else, so
/// unknown layers sort last.
pub open spec fn spec_metal_index(l: Seq<char>) -> int {
    if (l.len() == 2 && crate::num::ci(l[0], 'l') && crate::num::ci(l[1], 'i')) || (l.len() == 3
        && crate::num::ci(l[0], 'l') && crate::num::ci(l[1], 'i') && l[2] == '1') {
        0
    } else {
        let d = digits_only(l);
        if d.len() > 0 && crate::num::digits_value(d) <= i32::MAX {
            crate::num::digits_value(d)
        } else {
            9999
        }
    }
}

fn metal_index_chars(l: &[char]) -> (r: i32)
    ensures
        r == spec_metal_index(l@),
{
    let n = l.len();
    let li = n >= 2 && n <= 3 && (l[0] == 'l' || l[0] == 'L') && (l[1] == 'i' || l[1] == 'I') && (n
        == 2 || l[2] == '1');
    assert(li == ((l@.len() == 2 && crate::num::ci(l@[0], 'l') && crate::num::ci(l@[1], 'i')) || (
    l@.len() == 3 && crate::num::ci(l@[0], 'l') && crate::num::ci(l@[1], 'i') && l@[2] == '1')));
    if li {
        return 0;
    }
    let mut d: Vec<char> = Vec::new();
    let mut i: usize = 0;
    while i < n
        invariant
            i <= n,
            n == l@.len(),
            d@ == digits_only(l@.take(i as int)),
        decreases n - i,
    {
        assert(l@.take(i + 1).drop_last() =~= l@.take(i as int));
        if l[i] >= '0' && l[i] <= '9' {
            d.push(l[i]);
        }
        i += 1;
    }
    assert(l@.take(i as int) =~= l@);
    proof {
        lemma_digits_only(l@);
    }
    if d.len() == 0 {
        return 9999;
    }
    match digits_upto(d.as_slice(), 2147483647u128) {
        Some(v) => v as i32,
        None => 9999,
    }
}

proof fn lemma_digits_only_of_digitless(s: Seq<char>)
    requires
        forall|i: int| 0 <= i < s.len() ==> !is_digit(s[i]),
    ensures
        digits_only(s) == Seq::<char>::empty(),
    decreases s.len(),
{
    if s.len() > 0 {
        lemma_digits_only_of_digitless(s.drop_last());
    }
}

proof fn lemma_digits_only_append(p: Seq<char>, d: Seq<char>)
    requires
        all_digits(d),
    ensures
        digits_only(p + d) == digits_only(p) + d,
    decreases d.len(),
{
    if d.len() > 0 {
        lemma_digits_only_append(p, d.drop_last());
        assert((p + d).drop_last() =~= p + d.drop_last());
        assert((p + d).last() == d.last());
        assert(digits_only(p) + d =~= (digits_only(p) + d.drop_last()).push(d.last()));
    } else {
        assert(p + d =~= p);
        assert(digits_only(p) + d =~= digits_only(p));
    }
}

/// `met<N>` sits at level `N` of the metal stack; a layer name without digits, other
/// than `li`, sits at level 9999, above every metal numbered below that.
pub proof fn lemma_metal_levels(n: nat, other: Seq<char>)
    requires
        n <= i32::MAX,
    ensures
        spec_metal_index("met"@ + spec_decimal(n)) == n,
        ((forall|i: int| 0 <= i < other.len() ==> !is_digit(other[i])) && (other.len() < 2 || !crate::num::ci(
            other[0],
            'l',
        ) || !crate::num::ci(other[1], 'i'))) ==> {
            &&& spec_metal_index(other) == 9999
            &&& (n < 9999 ==> spec_metal_index("met"@ + spec_decimal(n)) < spec_metal_index(other))
        },
{
    reveal_strlit("met");
    assert("met"@ =~= seq!['m', 'e', 't']);
    lemma_decimal_digits(n);
    lemma_digits_only_of_digitless("met"@);
    lemma_digits_only_append("met"@, spec_decimal(n));
    assert(digits_only("met"@ + spec_decimal(n)) =~= spec_decimal(n));
    assert(("met"@ + spec_decimal(n))[0] == 'm');
    if (forall|i: int| 0 <= i < other.len() ==> !is_digit(other[i])) {
        lemma_digits_only_of_digitless(other);
    }
}

/// Metal-stack position of a layer name (see `spec_metal_index`).
pub fn metal_index(layer: &str) -> (r: i32)
    ensures
        r == spec_metal_index(layer@),
{
    let c = chars_of(layer);
    metal_index_chars(c.as_slice())
}

/// The node name of a grid point: `<layer>_<x>_<y>`.
pub open spec fn spec_node(layer: Seq<char>, x: int, y: int) -> Seq<char> {
    layer + "_"@ + spec_int_str(x) + "_"@ + spec_int_str(y)
}

fn node_chars(layer: &[char], x: i64, y: i64) -> (r: String)
    ensures
        r@ == spec_node(layer@, x as int, y as int),
{
    let mut out: Vec<char> = Vec::new();
    push_chars(&mut out, layer);
    push_str(&mut out, "_");
    push_int(x, &mut out);
    push_str(&mut out, "_");
    push_int(y, &mut out);
    assert(out@ =~= spec_node(layer@, x as int, y as int));
    string_of(out.as_slice())
}

/// The node name of a grid point (see `spec_node`).
pub fn node(layer: &str, x: i64, y: i64) -> (r: String)
    ensures
        r@ == spec_node(layer@, x as int, y as int),
{
    let c = chars_of(layer);
    node_chars(c.as_slice(), x, y)
}

/// `v` is representable as an `i64`.
pub open spec fn fits(v: int) -> bool {
    i64::MIN <= v <= i64::MAX
}

/// Whether the `i64` expressions of the on-segment test (differences, cross product,
/// and for collinear points the dot product and squared length) stay within `i64`.
pub open spec fn on_segment_fits(x1: int, y1: int, x2: int, y2: int, px: int, py: int) -> bool {
    let (dx, dy) = (x2 - x1, y2 - y1);
    let (ux, uy) = (px - x1, py - y1);
    &&& fits(dx) && fits(dy) && fits(ux) && fits(uy)
    &&& fits(dx * uy) && fits(dy * ux) && fits(dx * uy - dy * ux)
    &&& (dx * uy - dy * ux == 0 ==> {
        &&& fits(ux * dx) && fits(uy * dy) && fits(ux * dx + uy * dy)
        &&& fits(dx * dx) && fits(dy * dy) && fits(dx * dx + dy * dy)
    })
}

/// `(px, py)` lies on the segment from `(x1, y1)` to `(x2, y2)`, strictly between its ends.
pub open spec fn spec_on_segment(x1: int, y1: int, x2: int, y2: int, px: int, py: int) -> bool {
    let (dx, dy) = (x2 - x1, y2 - y1);
    let (ux, uy) = (px - x1, py - y1);
    dx * uy - dy * ux == 0 && 0 < ux * dx + uy * dy && ux * dx + uy * dy < dx * dx + dy * dy
}

/// The same test, reporting `None` where the `i64` arithmetic would overflow.
pub fn on_segment_checked(x1: i64, y1: i64, x2: i64, y2: i64, px: i64, py: i64) -> (r: Option<bool>)
    ensures
        r is Some <==> on_segment_fits(x1 as int, y1 as int, x2 as int, y2 as int, px as int, py as int),
        r matches Some(b) ==> b == spec_on_segment(x1 as int, y1 as int, x2 as int, y2 as int, px as int, py as int),
{
    let dx = x2.checked_sub(x1)?;
    let dy = y2.checked_sub(y1)?;
    let ux = px.checked_sub(x1)?;
    let uy = py.checked_sub(y1)?;
    let c1 = dx.checked_mul(uy)?;
    let c2 = dy.checked_mul(ux)?;
    let cross = c1.checked_sub(c2)?;
    if cross != 0 {
        return Some(false);
    }
    let d1 = ux.checked_mul(dx)?;
    let d2 = uy.checked_mul(dy)?;
    let dot = d1.checked_add(d2)?;
    let l1 = dx.checked_mul(dx)?;
    let l2 = dy.checked_mul(dy)?;
    let len2 = l1.checked_add(l2)?;
    Some(dot > 0 && dot < len2)
}

/// Is point `(px, py)` strictly on the open segment `(x1, y1) -> (x2, y2)`
/// (collinear and between the ends)?
pub fn on_segment(x1: i64, y1: i64, x2: i64, y2: i64, px: i64, py: i64) -> (b: bool)
    requires
        on_segment_fits(x1 as int, y1 as int, x2 as int, y2 as int, px as int, py as int),
    ensures
        b == spec_on_segment(x1 as int, y1 as int, x2 as int, y2 as int, px as int, py as int),
{
    match on_segment_checked(x1, y1, x2, y2, px, py) {
        Some(b) => b,
        None => false,
    }
}

/// Written integers never contain `_`.
proof fn lemma_int_str_no_underscore(v: int)
    ensures
        forall|i: int| 0 <= i < spec_int_str(v).len() ==> spec_int_str(v)[i] != '_',
{
    if v < 0 {
        lemma_decimal_digits((-v) as nat);
        let d = spec_decimal((-v) as nat);
        assert forall|i: int| 0 <= i < spec_int_str(v).len() implies spec_int_str(v)[i] != '_' by {
            if i > 0 {
                assert(spec_int_str(v)[i] == d[i - 1]);
                assert(is_digit(d[i - 1]));
            }
        }
    } else {
        lemma_decimal_digits(v as nat);
        let d = spec_decimal(v as nat);
        assert forall|i: int| 0 <= i < spec_int_str(v).len() implies spec_int_str(v)[i] != '_' by {
            assert(is_digit(d[i]));
        }
    }
}

/// Written integers are distinct for distinct values.
proof fn lemma_int_str_injective(a: int, b: int)
    requires
        spec_int_str(a) == spec_int_str(b),
        i64::MIN <= a <= i64::MAX,
        i64::MIN <= b <= i64::MAX,
    ensures
        a == b,
{
    crate::num::lemma_parse_int_str(a as i64);
    crate::num::lemma_parse_int_str(b as i64);
}

/// Node names identify grid points: two names are equal only for the same layer and
/// the same coordinates.
pub proof fn lemma_node_injective(l1: Seq<char>, x1: i64, y1: i64, l2: Seq<char>, x2: i64, y2: i64)
    requires
        spec_node(l1, x1 as int, y1 as int) == spec_node(l2, x2 as int, y2 as int),
    ensures
        l1 == l2 && x1 == x2 && y1 == y2,
{
    let n1 = spec_node(l1, x1 as int, y1 as int);
    let n2 = spec_node(l2, x2 as int, y2 as int);
    let (sx1, sy1, sx2, sy2) = (spec_int_str(x1 as int), spec_int_str(y1 as int), spec_int_str(x2 as int), spec_int_str(y2 as int));
    lemma_int_str_no_underscore(x1 as int);
    lemma_int_str_no_underscore(y1 as int);
    lemma_int_str_no_underscore(x2 as int);
    lemma_int_str_no_underscore(y2 as int);
    reveal_strlit("_");
    assert("_"@ =~= seq!['_']);
    // y is what follows the last '_'
    assert(n1 =~= l1 + seq!['_'] + sx1 + seq!['_'] + sy1);
    assert(n2 =~= l2 + seq!['_'] + sx2 + seq!['_'] + sy2);
    lemma_suffix_after_last(l1 + seq!['_'] + sx1, sy1, l2 + seq!['_'] + sx2, sy2);
    lemma_int_str_injective(y1 as int, y2 as int);
    lemma_suffix_after_last(l1, sx1, l2, sx2);
    lemma_int_str_injective(x1 as int, x2 as int);
}

/// If `a + "_" + s == b + "_" + t` and neither `s` nor `t` contains `_`, then the
/// parts agree.
proof fn lemma_suffix_after_last(a: Seq<char>, s: Seq<char>, b: Seq<char>, t: Seq<char>)
    requires
        a + seq!['_'] + s == b + seq!['_'] + t,
        forall|i: int| 0 <= i < s.len() ==> s[i] != '_',
        forall|i: int| 0 <= i < t.len() ==> t[i] != '_',
    ensures
        a == b && s == t,
{
    let whole = a + seq!['_'] + s;
    let other = b + seq!['_'] + t;
    assert(whole.len() == a.len() + 1 + s.len());
    assert(other.len() == b.len() + 1 + t.len());
    assert(whole.len() == other.len());
    if s.len() < t.len() {
        // the '_' before s sits inside t
        let k = a.len() as int;
        assert(k > b.len());
        assert(whole[k] == '_');
        assert(other[k] == t[k - (b.len() as int + 1)]);
    } else if t.len() < s.len() {
        let k = b.len() as int;
        assert(k > a.len());
        assert(other[k] == '_');
        assert(whole[k] == s[k - (a.len() as int + 1)]);
    } else {
        assert(a.len() == b.len());
        assert(a =~= whole.take(a.len() as int));
        assert(b =~= (b + seq!['_'] + t).take(b.len() as int));
        assert(s =~= whole.skip(a.len() as int + 1));
        assert(t =~= (b + seq!['_'] + t).skip(b.len() as int + 1));
    }
}


// ---------------------------------------------------------------------------------
// Ordered collections: points ordered by (x, y), layer names by character order.
// ---------------------------------------------------------------------------------

pub type Pt = (i64, i64);

pub open spec fn pt_lt(p: Pt, q: Pt) -> bool {
    p.0 < q.0 || (p.0 == q.0 && p.1 < q.1)
}

/// Lexicographic order on character sequences (the order of `String`).
pub open spec fn seq_lt(a: Seq<char>, b: Seq<char>) -> bool
    decreases a.len(),
{
    if a.len() == 0 {
        b.len() > 0
    } else if b.len() == 0 {
        false
    } else if a[0] != b[0] {
        a[0] < b[0]
    } else {
        seq_lt(a.drop_first(), b.drop_first())
    }
}

pub open spec fn pt_order() -> spec_fn(Pt, Pt) -> bool {
    |p: Pt, q: Pt| pt_lt(p, q)
}

pub open spec fn str_order() -> spec_fn(Seq<char>, Seq<char>) -> bool {
    |a: Seq<char>, b: Seq<char>| seq_lt(a, b)
}

/// `x` inserted into `s` before the first element that equals it or comes after it;
/// nothing changes when that element equals `x`.
pub open spec fn insert_by<T>(s: Seq<T>, x: T, lt: spec_fn(T, T) -> bool) -> Seq<T>
    decreases s.len(),
{
    if s.len() == 0 {
        seq![x]
    } else if s[0] == x {
        s
    } else if lt(x, s[0]) {
        seq![x] + s
    } else {
        seq![s[0]] + insert_by(s.drop_first(), x, lt)
    }
}

/// The index `insert_by` stops at.
pub open spec fn stop_by<T>(s: Seq<T>, x: T, lt: spec_fn(T, T) -> bool) -> int
    decreases s.len(),
{
    if s.len() == 0 {
        0
    } else if s[0] == x || lt(x, s[0]) {
        0
    } else {
        1 + stop_by(s.drop_first(), x, lt)
    }
}

pub proof fn lemma_insert_by<T>(s: Seq<T>, x: T, lt: spec_fn(T, T) -> bool)
    ensures
        0 <= stop_by(s, x, lt) <= s.len(),
        forall|j: int| 0 <= j < stop_by(s, x, lt) ==> s[j] != x && !lt(x, s[j]),
        stop_by(s, x, lt) < s.len() ==> (s[stop_by(s, x, lt)] == x || lt(x, s[stop_by(s, x, lt)])),
        insert_by(s, x, lt) == (if stop_by(s, x, lt) < s.len() && s[stop_by(s, x, lt)] == x {
            s
        } else {
            s.take(stop_by(s, x, lt)) + seq![x] + s.skip(stop_by(s, x, lt))
        }),
    decreases s.len(),
{
    if s.len() > 0 {
        lemma_insert_by(s.drop_first(), x, lt);
        let k = stop_by(s, x, lt);
        if s[0] == x || lt(x, s[0]) {
            assert(s.take(0) + seq![x] + s.skip(0) =~= seq![x] + s);
        } else {
            assert forall|j: int| 0 <= j < k implies s[j] != x && !lt(x, s[j]) by {
                if j > 0 {
                    assert(s[j] == s.drop_first()[j - 1]);
                }
            }
            let d = s.drop_first();
            let kd = stop_by(d, x, lt);
            if kd < d.len() && d[kd] == x {
                assert(seq![s[0]] + d =~= s);
            } else {
                assert(seq![s[0]] + (d.take(kd) + seq![x] + d.skip(kd)) =~= s.take(k) + seq![x] + s.skip(k));
            }
        }
    } else {
        assert(s.take(0) + seq![x] + s.skip(0) =~= seq![x]);
    }
}

/// Points without repeats, in increasing order.
pub open spec fn sorted_points(ps: Seq<Pt>) -> Seq<Pt>
    decreases ps.len(),
{
    if ps.len() == 0 {
        seq![]
    } else {
        insert_by(sorted_points(ps.drop_last()), ps.last(), pt_order())
    }
}

/// The layers found at each point: points in increasing order, each with its layer
/// names without repeats in character order.
pub type AtPoint = Seq<(Pt, Seq<Seq<char>>)>;

/// `at` after noting layer `l` at point `p`.
pub open spec fn note(at: AtPoint, l: Seq<char>, p: Pt) -> AtPoint
    decreases at.len(),
{
    if at.len() == 0 {
        seq![(p, seq![l])]
    } else if at[0].0 == p {
        seq![(p, insert_by(at[0].1, l, str_order()))] + at.drop_first()
    } else if pt_lt(p, at[0].0) {
        seq![(p, seq![l])] + at
    } else {
        seq![at[0]] + note(at.drop_first(), l, p)
    }
}

pub open spec fn note_all(at: AtPoint, ns: Seq<(Seq<char>, Pt)>) -> AtPoint
    decreases ns.len(),
{
    if ns.len() == 0 {
        at
    } else {
        note(note_all(at, ns.drop_last()), ns.last().0, ns.last().1)
    }
}

/// The via locations lying strictly inside segment `s`, in the order given.
pub open spec fn on_seg_filter(vs: Seq<Pt>, s: crate::def::SegV) -> Seq<Pt>
    decreases vs.len(),
{
    if vs.len() == 0 {
        seq![]
    } else {
        let r = on_seg_filter(vs.drop_last(), s);
        if spec_on_segment(s.x1 as int, s.y1 as int, s.x2 as int, s.y2 as int, vs.last().0 as int, vs.last().1 as int) {
            r.push(vs.last())
        } else {
            r
        }
    }
}

pub open spec fn rev<T>(s: Seq<T>) -> Seq<T>
    decreases s.len(),
{
    if s.len() == 0 {
        seq![]
    } else {
        seq![s.last()] + rev(s.drop_last())
    }
}

/// Whether walking segment `s` from its start meets points in decreasing order.
pub open spec fn walks_backwards(s: crate::def::SegV) -> bool {
    s.x2 < s.x1 || (s.x2 == s.x1 && s.y2 < s.y1)
}

/// The points where segment `s` is cut, in order from its start (`vs` increasing).
pub open spec fn cuts(s: crate::def::SegV, vs: Seq<Pt>) -> Seq<Pt> {
    let f = on_seg_filter(vs, s);
    if walks_backwards(s) {
        rev(f)
    } else {
        f
    }
}

/// The polyline a segment becomes: its start, its cut points, its end.
pub open spec fn chain(s: crate::def::SegV, vs: Seq<Pt>) -> Seq<Pt> {
    seq![(s.x1, s.y1)] + cuts(s, vs) + seq![(s.x2, s.y2)]
}

/// A wire piece: the segment it comes from, its layer, and its two end nodes.
pub struct WireV {
    pub seg: int,
    pub layer: Seq<char>,
    pub a: Pt,
    pub b: Pt,
}

/// The pieces between consecutive distinct chain points, up to chain index `i`.
pub open spec fn chain_pieces(c: Seq<Pt>, layer: Seq<char>, k: int, i: int) -> Seq<WireV>
    decreases i,
{
    if i <= 0 || i >= c.len() {
        seq![]
    } else {
        let r = chain_pieces(c, layer, k, i - 1);
        if c[i - 1] != c[i] {
            r.push(WireV { seg: k, layer, a: c[i - 1], b: c[i] })
        } else {
            r
        }
    }
}

/// The notes a chain makes: both ends of every consecutive pair, up to index `i`.
pub open spec fn chain_notes(c: Seq<Pt>, layer: Seq<char>, i: int) -> Seq<(Seq<char>, Pt)>
    decreases i,
{
    if i <= 0 || i >= c.len() {
        seq![]
    } else {
        chain_notes(c, layer, i - 1).push((layer, c[i - 1])).push((layer, c[i]))
    }
}

pub open spec fn seg_pieces(segs: Seq<crate::def::SegV>, vs: Seq<Pt>, k: int) -> Seq<WireV> {
    let c = chain(segs[k], vs);
    chain_pieces(c, segs[k].layer, k, c.len() - 1)
}

pub open spec fn seg_notes(segs: Seq<crate::def::SegV>, vs: Seq<Pt>, k: int) -> Seq<(Seq<char>, Pt)> {
    let c = chain(segs[k], vs);
    chain_notes(c, segs[k].layer, c.len() - 1)
}

/// The wire pieces of the first `n` segments.
pub open spec fn all_pieces(segs: Seq<crate::def::SegV>, vs: Seq<Pt>, n: int) -> Seq<WireV>
    decreases n,
{
    if n <= 0 {
        seq![]
    } else {
        all_pieces(segs, vs, n - 1) + seg_pieces(segs, vs, n - 1)
    }
}

/// The notes of the first `n` segments.
pub open spec fn all_notes(segs: Seq<crate::def::SegV>, vs: Seq<Pt>, n: int) -> Seq<(Seq<char>, Pt)>
    decreases n,
{
    if n <= 0 {
        seq![]
    } else {
        all_notes(segs, vs, n - 1) + seg_notes(segs, vs, n - 1)
    }
}

pub open spec fn point_notes(ps: Seq<(Seq<char>, i64, i64)>) -> Seq<(Seq<char>, Pt)> {
    ps.map_values(|p: (Seq<char>, i64, i64)| (p.0, (p.1, p.2)))
}


/// Layer names in stack order, keeping the given order among equal positions:
/// `l` goes after every name whose metal index is not above its own.
pub open spec fn insert_mi(s: Seq<Seq<char>>, l: Seq<char>) -> Seq<Seq<char>>
    decreases s.len(),
{
    if s.len() == 0 {
        seq![l]
    } else if spec_metal_index(l) < spec_metal_index(s[0]) {
        seq![l] + s
    } else {
        seq![s[0]] + insert_mi(s.drop_first(), l)
    }
}

pub open spec fn sort_mi(ls: Seq<Seq<char>>) -> Seq<Seq<char>>
    decreases ls.len(),
{
    if ls.len() == 0 {
        seq![]
    } else {
        insert_mi(sort_mi(ls.drop_last()), ls.last())
    }
}

/// A via bridge at a point between two layers adjacent in the stack.
pub struct LinkV {
    pub pt: Pt,
    pub lower: Seq<char>,
    pub upper: Seq<char>,
}

/// The bridges between stack-adjacent layers in `ls`, up to index `i`.
pub open spec fn links_at(p: Pt, ls: Seq<Seq<char>>, i: int) -> Seq<LinkV>
    decreases i,
{
    if i <= 0 || i >= ls.len() {
        seq![]
    } else {
        links_at(p, ls, i - 1).push(LinkV { pt: p, lower: ls[i - 1], upper: ls[i] })
    }
}

pub open spec fn lookup_at(at: AtPoint, p: Pt) -> Option<Seq<Seq<char>>>
    decreases at.len(),
{
    if at.len() == 0 {
        None
    } else if at[0].0 == p {
        Some(at[0].1)
    } else {
        lookup_at(at.drop_first(), p)
    }
}

/// The via bridges at the first `n` via locations (a location with no node is skipped).
pub open spec fn via_links(vs: Seq<Pt>, at: AtPoint, n: int) -> Seq<LinkV>
    decreases n,
{
    if n <= 0 {
        seq![]
    } else {
        let r = via_links(vs, at, n - 1);
        match lookup_at(at, vs[n - 1]) {
            Some(ls) => {
                let o = sort_mi(ls);
                r + links_at(vs[n - 1], o, o.len() - 1)
            },
            None => r,
        }
    }
}

/// The points (among the first `n` entries) that have a node on the pad layer.
pub open spec fn pad_points(at: AtPoint, pad: Seq<char>, n: int) -> Seq<Pt>
    decreases n,
{
    if n <= 0 {
        seq![]
    } else if at[n - 1].1.contains(pad) {
        pad_points(at, pad, n - 1).push(at[n - 1].0)
    } else {
        pad_points(at, pad, n - 1)
    }
}

pub open spec fn min_opt(a: Option<int>, b: int) -> Option<int> {
    match a {
        Some(x) => if b < x { Some(b) } else { Some(x) },
        None => Some(b),
    }
}

/// The lowest metal index among the first `n` names of `ls` other than `pad`.
pub open spec fn lowest_in(ls: Seq<Seq<char>>, pad: Seq<char>, acc: Option<int>, n: int) -> Option<int>
    decreases n,
{
    if n <= 0 {
        acc
    } else {
        let r = lowest_in(ls, pad, acc, n - 1);
        if ls[n - 1] != pad {
            min_opt(r, spec_metal_index(ls[n - 1]))
        } else {
            r
        }
    }
}

/// The lowest metal index of a non-pad layer among the first `n` entries.
pub open spec fn lowest_mi(at: AtPoint, pad: Seq<char>, n: int) -> Option<int>
    decreases n,
{
    if n <= 0 {
        None
    } else {
        let ls = at[n - 1].1;
        lowest_in(ls, pad, lowest_mi(at, pad, n - 1), ls.len() as int)
    }
}

/// The load nodes among the first `i` names at one point.
pub open spec fn load_at(p: Pt, ls: Seq<Seq<char>>, pad: Seq<char>, low: Option<int>, i: int) -> Seq<
    (Seq<char>, Pt),
>
    decreases i,
{
    if i <= 0 {
        seq![]
    } else {
        let r = load_at(p, ls, pad, low, i - 1);
        if ls[i - 1] != pad && low == Some(spec_metal_index(ls[i - 1])) {
            r.push((ls[i - 1], p))
        } else {
            r
        }
    }
}

/// The load nodes (lowest non-pad metal) among the first `n` entries.
pub open spec fn load_nodes(at: AtPoint, pad: Seq<char>, low: Option<int>, n: int) -> Seq<(Seq<char>, Pt)>
    decreases n,
{
    if n <= 0 {
        seq![]
    } else {
        load_nodes(at, pad, low, n - 1) + load_at(at[n - 1].0, at[n - 1].1, pad, low, at[n - 1].1.len() as int)
    }
}

// ---------------------------------------------------------------------------------
// Where instance current enters: taps on the rail.
// ---------------------------------------------------------------------------------

/// An instance that carries current: its name and the point it draws from (DB units).
pub type Inst = (Seq<char>, i64, i64);

/// The rail layer among the first `n` segments: the lowest metal other than the pad
/// layer (the first such segment's layer among equals).
pub open spec fn rail_layer(segs: Seq<crate::def::SegV>, pad: Seq<char>, n: int) -> Option<Seq<char>>
    decreases n,
{
    if n <= 0 {
        None
    } else {
        let r = rail_layer(segs, pad, n - 1);
        let l = segs[n - 1].layer;
        if l == pad {
            r
        } else {
            match r {
                None => Some(l),
                Some(b) => if spec_metal_index(l) < spec_metal_index(b) { Some(l) } else { r },
            }
        }
    }
}

pub open spec fn clamp(v: i64, a: i64, b: i64) -> i64 {
    let lo = if a <= b { a } else { b };
    let hi = if a <= b { b } else { a };
    if v < lo { lo } else if v > hi { hi } else { v }
}

/// The point of an axis-aligned segment nearest `c` (none for a slanted one).
pub open spec fn proj(c: Pt, s: crate::def::SegV) -> Option<Pt> {
    if s.y1 == s.y2 {
        Some((clamp(c.0, s.x1, s.x2), s.y1))
    } else if s.x1 == s.x2 {
        Some((s.x1, clamp(c.1, s.y1, s.y2)))
    } else {
        None
    }
}

/// The squared distance between two points.
pub open spec fn dist(p: Pt, c: Pt) -> int {
    (p.0 - c.0) * (p.0 - c.0) + (p.1 - c.1) * (p.1 - c.1)
}

/// The nearest projection of `c` onto the first `n` segments on layer `rl` (the first
/// of equally near ones), with its squared distance.
pub open spec fn best_proj(c: Pt, segs: Seq<crate::def::SegV>, rl: Seq<char>, n: int) -> Option<(int, Pt)>
    decreases n,
{
    if n <= 0 {
        None
    } else {
        let b = best_proj(c, segs, rl, n - 1);
        if segs[n - 1].layer != rl {
            b
        } else {
            match proj(c, segs[n - 1]) {
                None => b,
                Some(p) => match b {
                    None => Some((dist(p, c), p)),
                    Some(q) => if dist(p, c) < q.0 { Some((dist(p, c), p)) } else { b },
                },
            }
        }
    }
}

/// Where an instance at `c` taps the rail: its nearest rail point, if any.
pub open spec fn tap_of(net: crate::def::NetV, pad: Seq<char>, c: Pt) -> Option<Pt> {
    match rail_layer(net.segs, pad, net.segs.len() as int) {
        None => None,
        Some(rl) => match best_proj(c, net.segs, rl, net.segs.len() as int) {
            Some(q) => Some(q.1),
            None => None,
        },
    }
}

pub open spec fn taps(net: crate::def::NetV, pad: Seq<char>, loaded: Seq<Inst>) -> Seq<Option<Pt>> {
    loaded.map_values(|i: Inst| tap_of(net, pad, (i.1, i.2)))
}

/// The tap points, in instance order.
pub open spec fn tap_points(ts: Seq<Option<Pt>>) -> Seq<Pt>
    decreases ts.len(),
{
    if ts.len() == 0 {
        seq![]
    } else {
        let r = tap_points(ts.drop_last());
        match ts.last() {
            Some(p) => r.push(p),
            None => r,
        }
    }
}

/// The points where wires are cut: via locations and taps, increasing, no repeats.
pub open spec fn cut_points(net: crate::def::NetV, pad: Seq<char>, loaded: Seq<Inst>) -> Seq<Pt> {
    sorted_points(net.vias + tap_points(taps(net, pad, loaded)))
}

/// The layers at every point of the power net, for the given cut points.
pub open spec fn net_at(net: crate::def::NetV, cs: Seq<Pt>) -> AtPoint {
    note_all(note_all(seq![], all_notes(net.segs, cs, net.segs.len() as int)), point_notes(net.points))
}

/// The node nearest `c` among the first `n` of `ns` (the first of equally near ones).
pub open spec fn nearest(ns: Seq<(Seq<char>, Pt)>, c: Pt, n: int) -> Option<(Seq<char>, Pt)>
    decreases n,
{
    if n <= 0 {
        None
    } else {
        let b = nearest(ns, c, n - 1);
        match b {
            None => Some(ns[n - 1]),
            Some(q) => if dist(ns[n - 1].1, c) < dist(q.1, c) { Some(ns[n - 1]) } else { b },
        }
    }
}

/// The node an instance's current enters at: its tap on the rail, else the nearest
/// load node.
pub open spec fn entry_node(net: crate::def::NetV, pad: Seq<char>, lns: Seq<(Seq<char>, Pt)>, i: Inst) -> Option<
    (Seq<char>, Pt),
> {
    match tap_of(net, pad, (i.1, i.2)) {
        Some(p) => Some((rail_layer(net.segs, pad, net.segs.len() as int)->0, p)),
        None => nearest(lns, (i.1, i.2), lns.len() as int),
    }
}

// ---------------------------------------------------------------------------------
// Supply: the power pin's shapes, else the pad layer.
// ---------------------------------------------------------------------------------

/// The port shapes of the pins that supply net `name` (power or ground pins of that
/// net, or named after it).
pub open spec fn supply_shapes(pins: Seq<crate::sections::PinV>, name: Seq<char>) -> Seq<crate::sections::ShapeV>
    decreases pins.len(),
{
    if pins.len() == 0 {
        seq![]
    } else {
        let r = supply_shapes(pins.drop_last(), name);
        let p = pins.last();
        if (p.use_power || p.use_ground) && (p.net == name || p.name == name) {
            r + p.shapes
        } else {
            r
        }
    }
}

/// Whether one of the first `n` shapes covers the node of layer `l` at `p`.
pub open spec fn covered(sh: Seq<crate::sections::ShapeV>, l: Seq<char>, p: Pt, n: int) -> bool
    decreases n,
{
    if n <= 0 {
        false
    } else {
        let s = sh[n - 1];
        (s.layer == l && s.x1 <= p.0 && p.0 <= s.x2 && s.y1 <= p.1 && p.1 <= s.y2) || covered(sh, l, p, n - 1)
    }
}

/// The covered nodes among the first `i` names at one point.
pub open spec fn pin_pads_at(p: Pt, ls: Seq<Seq<char>>, sh: Seq<crate::sections::ShapeV>, i: int) -> Seq<
    (Seq<char>, Pt),
>
    decreases i,
{
    if i <= 0 {
        seq![]
    } else {
        let r = pin_pads_at(p, ls, sh, i - 1);
        if covered(sh, ls[i - 1], p, sh.len() as int) {
            r.push((ls[i - 1], p))
        } else {
            r
        }
    }
}

/// The nodes the shapes cover, among the first `n` points.
pub open spec fn pin_pads(at: AtPoint, sh: Seq<crate::sections::ShapeV>, n: int) -> Seq<(Seq<char>, Pt)>
    decreases n,
{
    if n <= 0 {
        seq![]
    } else {
        pin_pads(at, sh, n - 1) + pin_pads_at(at[n - 1].0, at[n - 1].1, sh, at[n - 1].1.len() as int)
    }
}

/// The supply nodes: those inside the net's power-pin shapes; when there are none,
/// every node on the pad layer.
pub open spec fn supply(at: AtPoint, pad: Seq<char>, sh: Seq<crate::sections::ShapeV>) -> Seq<(Seq<char>, Pt)> {
    let pp = pin_pads(at, sh, at.len() as int);
    if pp.len() > 0 {
        pp
    } else {
        pad_points(at, pad, at.len() as int).map_values(|p: Pt| (pad, p))
    }
}

/// The grid topology extracted from a net.
pub struct TopologyV {
    pub net_name: Seq<char>,
    pub wires: Seq<WireV>,
    pub vias: Seq<LinkV>,
    pub pads: Seq<(Seq<char>, Pt)>,
    pub load_nodes: Seq<(Seq<char>, Pt)>,
    pub taps: Seq<Option<(Seq<char>, Pt)>>,
}

pub open spec fn net_topology(
    net: crate::def::NetV,
    pins: Seq<crate::sections::PinV>,
    pad: Seq<char>,
    loaded: Seq<Inst>,
) -> TopologyV {
    let vs = sorted_points(net.vias);
    let cs = cut_points(net, pad, loaded);
    let at = net_at(net, cs);
    let lns = load_nodes(at, pad, lowest_mi(at, pad, at.len() as int), at.len() as int);
    TopologyV {
        net_name: net.name,
        wires: all_pieces(net.segs, cs, net.segs.len() as int),
        vias: via_links(vs, at, vs.len() as int),
        pads: supply(at, pad, supply_shapes(pins, net.name)),
        load_nodes: lns,
        taps: loaded.map_values(|i: Inst| entry_node(net, pad, lns, i)),
    }
}

/// What extraction gives for a DEF's nets and pins, the pad layer and the instances
/// that carry current.
pub open spec fn spec_topology(
    nets: Seq<crate::def::NetV>,
    pins: Seq<crate::sections::PinV>,
    pad: Seq<char>,
    loaded: Seq<Inst>,
) -> Result<TopologyV, Seq<char>> {
    match crate::def::spec_power_net(nets) {
        None => Err("no power net in DEF"@),
        Some(k) => {
            let net = nets[k];
            if net.segs.len() == 0 {
                Err("power net "@ + crate::text::spec_debug_str(net.name) + " has no routed segments"@)
            } else {
                Ok(net_topology(net, pins, pad, loaded))
            }
        },
    }
}

/// The on-segment test's `i64` arithmetic stays in range for every segment of `net`
/// and every point of `pts`.
pub open spec fn fits_with(net: crate::def::NetV, pts: Seq<Pt>) -> bool {
    forall|i: int, j: int|
        0 <= i < net.segs.len() && 0 <= j < pts.len() ==> on_segment_fits(
            #[trigger] net.segs[i].x1 as int,
            net.segs[i].y1 as int,
            net.segs[i].x2 as int,
            net.segs[i].y2 as int,
            #[trigger] pts[j].0 as int,
            pts[j].1 as int,
        )
}

/// The on-segment test stays in range for the net's segments against its via
/// locations and the instances' taps.
pub open spec fn net_fits(net: crate::def::NetV, pad: Seq<char>, loaded: Seq<Inst>) -> bool {
    fits_with(net, net.vias + tap_points(taps(net, pad, loaded)))
}

pub open spec fn inst_view(i: (String, i64, i64)) -> Inst {
    (i.0@, i.1, i.2)
}


// ---------------------------------------------------------------------------------
// Executable collections.
// ---------------------------------------------------------------------------------

fn lt_chars(a: &[char], b: &[char]) -> (r: bool)
    ensures
        r == seq_lt(a@, b@),
{
    let mut i: usize = 0;
    assert(a@.skip(0) =~= a@);
    assert(b@.skip(0) =~= b@);
    while i < a.len() && i < b.len() && a[i] == b[i]
        invariant
            i <= a@.len(),
            i <= b@.len(),
            seq_lt(a@, b@) == seq_lt(a@.skip(i as int), b@.skip(i as int)),
        decreases a.len() - i,
    {
        assert(a@.skip(i as int).drop_first() =~= a@.skip(i + 1));
        assert(b@.skip(i as int).drop_first() =~= b@.skip(i + 1));
        i += 1;
    }
    assert(a@.skip(i as int).len() == a@.len() - i);
    assert(b@.skip(i as int).len() == b@.len() - i);
    if i < a.len() && i < b.len() {
        assert(a@.skip(i as int)[0] == a@[i as int]);
        assert(b@.skip(i as int)[0] == b@[i as int]);
    }
    if i == a.len() {
        i < b.len()
    } else if i == b.len() {
        false
    } else {
        a[i] < b[i]
    }
}

fn pt_eq(a: Pt, b: Pt) -> (r: bool)
    ensures
        r == (a == b),
{
    a.0 == b.0 && a.1 == b.1
}

fn pt_less(a: Pt, b: Pt) -> (r: bool)
    ensures
        r == pt_lt(a, b),
{
    a.0 < b.0 || (a.0 == b.0 && a.1 < b.1)
}

fn key_of(e: &(Pt, Vec<Vec<char>>)) -> (r: Pt)
    ensures
        r == e.0,
{
    e.0
}

fn insert_point(v: &mut Vec<Pt>, p: Pt)
    ensures
        final(v)@ == insert_by(old(v)@, p, pt_order()),
{
    proof {
        lemma_insert_by(v@, p, pt_order());
    }
    let ghost s = v@;
    let mut k: usize = 0;
    while k < v.len() && !pt_eq(v[k], p) && !pt_less(p, v[k])
        invariant
            k <= v@.len(),
            s == v@,
            k <= stop_by(s, p, pt_order()),
            0 <= stop_by(s, p, pt_order()) <= s.len(),
            stop_by(s, p, pt_order()) < s.len() ==> (s[stop_by(s, p, pt_order())] == p || pt_order()(p, s[stop_by(s, p, pt_order())])),
        decreases v.len() - k,
    {
        k += 1;
    }
    assert(k == stop_by(s, p, pt_order()));
    if k < v.len() && pt_eq(v[k], p) {
        return;
    }
    v.insert(k, p);
    assert(v@ =~= s.take(k as int) + seq![p] + s.skip(k as int));
}

pub open spec fn layers_view(v: Seq<Vec<char>>) -> Seq<Seq<char>> {
    crate::text::seqs(v)
}

fn insert_layer(v: &mut Vec<Vec<char>>, l: &[char])
    ensures
        layers_view(final(v)@) == insert_by(layers_view(old(v)@), l@, str_order()),
{
    let ghost s = layers_view(v@);
    proof {
        lemma_insert_by(s, l@, str_order());
    }
    let mut k: usize = 0;
    while k < v.len() && !crate::lef::same_chars(v[k].as_slice(), l) && !lt_chars(l, v[k].as_slice())
        invariant
            k <= v@.len(),
            s == layers_view(v@),
            k <= stop_by(s, l@, str_order()),
            0 <= stop_by(s, l@, str_order()) <= s.len(),
            stop_by(s, l@, str_order()) < s.len() ==> (s[stop_by(s, l@, str_order())] == l@ || str_order()(
                l@,
                s[stop_by(s, l@, str_order())],
            )),
        decreases v.len() - k,
    {
        assert(s[k as int] == v@[k as int]@);
        k += 1;
    }
    if k < v.len() {
        assert(s[k as int] == v@[k as int]@);
    }
    assert(k == stop_by(s, l@, str_order()));
    if k < v.len() && crate::lef::same_chars(v[k].as_slice(), l) {
        return;
    }
    v.insert(k, crate::text::slice_to_vec(l));
    assert(layers_view(v@) =~= s.take(k as int) + seq![l@] + s.skip(k as int));
}

pub open spec fn at_view(v: Seq<(Pt, Vec<Vec<char>>)>) -> AtPoint {
    v.map_values(|e: (Pt, Vec<Vec<char>>)| (e.0, layers_view(e.1@)))
}

/// The index `note` stops at.
pub open spec fn note_stop(at: AtPoint, p: Pt) -> int
    decreases at.len(),
{
    if at.len() == 0 {
        0
    } else if at[0].0 == p || pt_lt(p, at[0].0) {
        0
    } else {
        1 + note_stop(at.drop_first(), p)
    }
}

proof fn lemma_note(at: AtPoint, l: Seq<char>, p: Pt)
    ensures
        0 <= note_stop(at, p) <= at.len(),
        forall|j: int| 0 <= j < note_stop(at, p) ==> at[j].0 != p && !pt_lt(p, at[j].0),
        note_stop(at, p) < at.len() ==> (at[note_stop(at, p)].0 == p || pt_lt(p, at[note_stop(at, p)].0)),
        note(at, l, p) == (if note_stop(at, p) < at.len() && at[note_stop(at, p)].0 == p {
            at.update(note_stop(at, p), (p, insert_by(at[note_stop(at, p)].1, l, str_order())))
        } else {
            at.take(note_stop(at, p)) + seq![(p, seq![l])] + at.skip(note_stop(at, p))
        }),
    decreases at.len(),
{
    if at.len() == 0 {
        assert(at.take(0) + seq![(p, seq![l])] + at.skip(0) =~= seq![(p, seq![l])]);
    } else if at[0].0 == p {
        assert(seq![(p, insert_by(at[0].1, l, str_order()))] + at.drop_first() =~= at.update(
            0,
            (p, insert_by(at[0].1, l, str_order())),
        ));
    } else if pt_lt(p, at[0].0) {
        assert(at.take(0) + seq![(p, seq![l])] + at.skip(0) =~= seq![(p, seq![l])] + at);
    } else {
        let d = at.drop_first();
        lemma_note(d, l, p);
        let k = note_stop(at, p);
        let kd = note_stop(d, p);
        assert forall|j: int| 0 <= j < k implies at[j].0 != p && !pt_lt(p, at[j].0) by {
            if j > 0 {
                assert(at[j] == d[j - 1]);
            }
        }
        if kd < d.len() && d[kd].0 == p {
            assert(seq![at[0]] + d.update(kd, (p, insert_by(d[kd].1, l, str_order()))) =~= at.update(
                k,
                (p, insert_by(at[k].1, l, str_order())),
            ));
        } else {
            assert(seq![at[0]] + (d.take(kd) + seq![(p, seq![l])] + d.skip(kd)) =~= at.take(k) + seq![(p, seq![l])]
                + at.skip(k));
        }
    }
}

fn note_exec(at: &mut Vec<(Pt, Vec<Vec<char>>)>, layer: &[char], p: Pt)
    ensures
        at_view(final(at)@) == note(at_view(old(at)@), layer@, p),
{
    let ghost a0 = at_view(at@);
    proof {
        lemma_note(a0, layer@, p);
    }
    let mut k: usize = 0;
    while k < at.len() && !pt_eq(at[k].0, p) && !pt_less(p, at[k].0)
        invariant
            k <= at@.len(),
            a0 == at_view(at@),
            k <= note_stop(a0, p),
            0 <= note_stop(a0, p) <= a0.len(),
            note_stop(a0, p) < a0.len() ==> (a0[note_stop(a0, p)].0 == p || pt_lt(p, a0[note_stop(a0, p)].0)),
        decreases at.len() - k,
    {
        k += 1;
    }
    assert(k == note_stop(a0, p));
    if k < at.len() && pt_eq(at[k].0, p) {
        let mut e = at.remove(k);
        insert_layer(&mut e.1, layer);
        at.insert(k, e);
        assert(at_view(at@) =~= a0.update(k as int, (p, insert_by(a0[k as int].1, layer@, str_order()))));
    } else {
        let mut ls: Vec<Vec<char>> = Vec::new();
        ls.push(crate::text::slice_to_vec(layer));
        assert(layers_view(ls@) =~= seq![layer@]);
        at.insert(k, (p, ls));
        assert(at_view(at@) =~= a0.take(k as int) + seq![(p, seq![layer@])] + a0.skip(k as int));
    }
}

/// The index `insert_mi` stops at: the first name whose metal index is above `l`'s.
pub open spec fn mi_stop(s: Seq<Seq<char>>, l: Seq<char>) -> int
    decreases s.len(),
{
    if s.len() == 0 {
        0
    } else if spec_metal_index(l) < spec_metal_index(s[0]) {
        0
    } else {
        1 + mi_stop(s.drop_first(), l)
    }
}

proof fn lemma_insert_mi(s: Seq<Seq<char>>, l: Seq<char>)
    ensures
        0 <= mi_stop(s, l) <= s.len(),
        forall|j: int| 0 <= j < mi_stop(s, l) ==> !(spec_metal_index(l) < spec_metal_index(s[j])),
        mi_stop(s, l) < s.len() ==> spec_metal_index(l) < spec_metal_index(s[mi_stop(s, l)]),
        insert_mi(s, l) == s.take(mi_stop(s, l)) + seq![l] + s.skip(mi_stop(s, l)),
    decreases s.len(),
{
    if s.len() == 0 {
        assert(s.take(0) + seq![l] + s.skip(0) =~= seq![l]);
    } else if spec_metal_index(l) < spec_metal_index(s[0]) {
        assert(s.take(0) + seq![l] + s.skip(0) =~= seq![l] + s);
    } else {
        let d = s.drop_first();
        lemma_insert_mi(d, l);
        let k = mi_stop(s, l);
        assert forall|j: int| 0 <= j < k implies !(spec_metal_index(l) < spec_metal_index(s[j])) by {
            if j > 0 {
                assert(s[j] == d[j - 1]);
            }
        }
        assert(seq![s[0]] + (d.take(k - 1) + seq![l] + d.skip(k - 1)) =~= s.take(k) + seq![l] + s.skip(k));
    }
}

fn insert_mi_exec(v: &mut Vec<Vec<char>>, l: Vec<char>)
    ensures
        layers_view(final(v)@) == insert_mi(layers_view(old(v)@), l@),
{
    let ghost s = layers_view(v@);
    proof {
        lemma_insert_mi(s, l@);
    }
    let ml = metal_index_chars(l.as_slice());
    let mut k: usize = 0;
    while k < v.len() && !(ml < metal_index_chars(v[k].as_slice()))
        invariant
            k <= v@.len(),
            s == layers_view(v@),
            ml == spec_metal_index(l@),
            k <= mi_stop(s, l@),
            0 <= mi_stop(s, l@) <= s.len(),
            mi_stop(s, l@) < s.len() ==> spec_metal_index(l@) < spec_metal_index(s[mi_stop(s, l@)]),
        decreases v.len() - k,
    {
        assert(s[k as int] == v@[k as int]@);
        k += 1;
    }
    if k < v.len() {
        assert(s[k as int] == v@[k as int]@);
    }
    assert(k == mi_stop(s, l@));
    let ghost lv = l@;
    v.insert(k, l);
    assert(layers_view(v@) =~= s.take(k as int) + seq![lv] + s.skip(k as int));
}

fn sort_mi_exec(ls: &Vec<Vec<char>>) -> (r: Vec<Vec<char>>)
    ensures
        layers_view(r@) == sort_mi(layers_view(ls@)),
{
    let ghost lv = layers_view(ls@);
    let mut r: Vec<Vec<char>> = Vec::new();
    let mut i: usize = 0;
    assert(layers_view(r@) =~= sort_mi(lv.take(0)));
    while i < ls.len()
        invariant
            i <= ls@.len(),
            lv == layers_view(ls@),
            layers_view(r@) == sort_mi(lv.take(i as int)),
        decreases ls.len() - i,
    {
        assert(lv.take(i + 1).drop_last() =~= lv.take(i as int));
        assert(lv.take(i + 1).last() == ls@[i as int]@);
        insert_mi_exec(&mut r, ls[i].clone());
        i += 1;
    }
    assert(lv.take(i as int) =~= lv);
    r
}

proof fn lemma_rev_index<T>(s: Seq<T>)
    ensures
        rev(s).len() == s.len(),
        forall|i: int| 0 <= i < s.len() ==> #[trigger] rev(s)[i] == s[s.len() - 1 - i],
    decreases s.len(),
{
    if s.len() > 0 {
        lemma_rev_index(s.drop_last());
        assert forall|i: int| 0 <= i < s.len() implies #[trigger] rev(s)[i] == s[s.len() - 1 - i] by {
            if i > 0 {
                assert(rev(s)[i] == rev(s.drop_last())[i - 1]);
            }
        }
    }
}

/// The cut points of a segment (see `cuts`).
fn seg_cuts(sg: &crate::def::Seg, vs: &Vec<Pt>) -> (r: Vec<Pt>)
    requires
        forall|j: int|
            0 <= j < vs@.len() ==> on_segment_fits(
                sg.x1 as int,
                sg.y1 as int,
                sg.x2 as int,
                sg.y2 as int,
                #[trigger] vs@[j].0 as int,
                vs@[j].1 as int,
            ),
    ensures
        r@ == cuts(sg@, vs@),
{
    let mut f: Vec<Pt> = Vec::new();
    let mut i: usize = 0;
    while i < vs.len()
        invariant
            i <= vs@.len(),
            f@ == on_seg_filter(vs@.take(i as int), sg@),
            forall|j: int|
                0 <= j < vs@.len() ==> on_segment_fits(
                    sg.x1 as int,
                    sg.y1 as int,
                    sg.x2 as int,
                    sg.y2 as int,
                    #[trigger] vs@[j].0 as int,
                    vs@[j].1 as int,
                ),
        decreases vs.len() - i,
    {
        assert(vs@.take(i + 1).drop_last() =~= vs@.take(i as int));
        let v = vs[i];
        if on_segment(sg.x1, sg.y1, sg.x2, sg.y2, v.0, v.1) {
            f.push(v);
        }
        i += 1;
    }
    assert(vs@.take(i as int) =~= vs@);
    if sg.x2 < sg.x1 || (sg.x2 == sg.x1 && sg.y2 < sg.y1) {
        let mut r: Vec<Pt> = Vec::new();
        let mut k: usize = f.len();
        proof {
            lemma_rev_index(f@);
        }
        while k > 0
            invariant
                k <= f@.len(),
                r@.len() == f@.len() - k,
                forall|j: int| 0 <= j < r@.len() ==> #[trigger] r@[j] == f@[f@.len() - 1 - j],
            decreases k,
        {
            r.push(f[k - 1]);
            k -= 1;
        }
        assert(r@ =~= rev(f@));
        r
    } else {
        f
    }
}

/// The entry of `at` for point `p` (see `lookup_at`).
fn lookup_at_exec(at: &Vec<(Pt, Vec<Vec<char>>)>, p: Pt) -> (r: Option<usize>)
    ensures
        match r {
            Some(e) => e < at@.len() && lookup_at(at_view(at@), p) == Some(at_view(at@)[e as int].1),
            None => lookup_at(at_view(at@), p) is None,
        },
{
    let ghost av = at_view(at@);
    let mut i: usize = 0;
    assert(av.skip(0) =~= av);
    while i < at.len()
        invariant
            i <= at@.len(),
            av == at_view(at@),
            lookup_at(av, p) == lookup_at(av.skip(i as int), p),
        decreases at.len() - i,
    {
        assert(av.skip(i as int)[0] == av[i as int]);
        if pt_eq(at[i].0, p) {
            return Some(i);
        }
        assert(av.skip(i as int).drop_first() =~= av.skip(i + 1));
        i += 1;
    }
    None
}

/// Whether the layer list holds `l`.
fn contains_layer(ls: &Vec<Vec<char>>, l: &[char]) -> (b: bool)
    ensures
        b == layers_view(ls@).contains(l@),
{
    let ghost s = layers_view(ls@);
    let mut i: usize = 0;
    while i < ls.len()
        invariant
            i <= ls@.len(),
            s == layers_view(ls@),
            forall|j: int| 0 <= j < i ==> s[j] != l@,
        decreases ls.len() - i,
    {
        if crate::lef::same_chars(ls[i].as_slice(), l) {
            assert(s[i as int] == l@);
            return true;
        }
        i += 1;
    }
    false
}

// ---------------------------------------------------------------------------------
// The extracted topology.
// ---------------------------------------------------------------------------------

/// A wire piece of segment `seg`: between grid nodes `a` (at `ax, ay`) and `b`.
#[derive(Debug, Clone)]
pub struct Wire {
    pub seg: usize,
    pub layer: String,
    pub a: String,
    pub b: String,
    pub ax: i64,
    pub ay: i64,
    pub bx: i64,
    pub by: i64,
}

/// A via bridge at `(x, y)` from node `a` on `lower` to node `b` on `upper`.
#[derive(Debug, Clone)]
pub struct ViaLink {
    pub x: i64,
    pub y: i64,
    pub lower: String,
    pub upper: String,
    pub a: String,
    pub b: String,
}

/// A grid node: its layer, position and name.
#[derive(Debug, Clone)]
pub struct GridNode {
    pub layer: String,
    pub x: i64,
    pub y: i64,
    pub name: String,
}

/// The resistor-network topology of a DEF power net: the wire pieces in segment
/// order, the via bridges, the supply (pad) nodes, the load nodes, and for each
/// instance that carries current the node its current enters at.
#[derive(Debug, Clone)]
pub struct Topology {
    pub net_name: String,
    pub wires: Vec<Wire>,
    pub vias: Vec<ViaLink>,
    pub pads: Vec<GridNode>,
    pub load_nodes: Vec<GridNode>,
    pub taps: Vec<Option<GridNode>>,
}

impl View for Wire {
    type V = WireV;

    open spec fn view(&self) -> WireV {
        WireV { seg: self.seg as int, layer: self.layer@, a: (self.ax, self.ay), b: (self.bx, self.by) }
    }
}

impl View for ViaLink {
    type V = LinkV;

    open spec fn view(&self) -> LinkV {
        LinkV { pt: (self.x, self.y), lower: self.lower@, upper: self.upper@ }
    }
}

/// Every name is the node name of its layer and position.
pub open spec fn wire_named(w: Wire) -> bool {
    w.a@ == spec_node(w.layer@, w.ax as int, w.ay as int) && w.b@ == spec_node(w.layer@, w.bx as int, w.by as int)
}

pub open spec fn link_named(v: ViaLink) -> bool {
    v.a@ == spec_node(v.lower@, v.x as int, v.y as int) && v.b@ == spec_node(v.upper@, v.x as int, v.y as int)
}

pub open spec fn node_named(n: GridNode) -> bool {
    n.name@ == spec_node(n.layer@, n.x as int, n.y as int)
}

pub open spec fn node_view(n: GridNode) -> (Seq<char>, Pt) {
    (n.layer@, (n.x, n.y))
}

pub open spec fn opt_node_view(o: Option<GridNode>) -> Option<(Seq<char>, Pt)> {
    match o {
        Some(n) => Some(node_view(n)),
        None => None,
    }
}

/// Everything a `Topology` says, against the extraction's result.
pub open spec fn topology_matches(t: Topology, v: TopologyV) -> bool {
    &&& t.net_name@ == v.net_name
    &&& t.wires@.map_values(|w: Wire| w@) == v.wires
    &&& t.vias@.map_values(|l: ViaLink| l@) == v.vias
    &&& t.pads@.map_values(|n: GridNode| node_view(n)) == v.pads
    &&& t.load_nodes@.map_values(|n: GridNode| node_view(n)) == v.load_nodes
    &&& t.taps@.map_values(|o: Option<GridNode>| opt_node_view(o)) == v.taps
    &&& forall|i: int| 0 <= i < t.wires@.len() ==> wire_named(#[trigger] t.wires@[i])
    &&& forall|i: int| 0 <= i < t.vias@.len() ==> link_named(#[trigger] t.vias@[i])
    &&& forall|i: int| 0 <= i < t.pads@.len() ==> node_named(#[trigger] t.pads@[i])
    &&& forall|i: int| 0 <= i < t.load_nodes@.len() ==> node_named(#[trigger] t.load_nodes@[i])
    &&& forall|i: int| 0 <= i < t.taps@.len() ==> (#[trigger] t.taps@[i] matches Some(n) ==> node_named(n))
}

fn grid_node(layer: &[char], x: i64, y: i64) -> (n: GridNode)
    ensures
        node_named(n),
        node_view(n) == (layer@, (x, y)),
{
    GridNode { layer: string_of(layer), x, y, name: node_chars(layer, x, y) }
}

proof fn lemma_note_all_push(at: AtPoint, ns: Seq<(Seq<char>, Pt)>, e: (Seq<char>, Pt))
    ensures
        note_all(at, ns.push(e)) == note(note_all(at, ns), e.0, e.1),
{
    assert(ns.push(e).drop_last() =~= ns);
}

/// The points of `pts` in increasing order without repeats.
fn sorted_exec(pts: &[Pt]) -> (r: Vec<Pt>)
    ensures
        r@ == sorted_points(pts@),
        forall|j: int| 0 <= j < r@.len() ==> pts@.contains(#[trigger] r@[j]),
{
    let mut vs: Vec<Pt> = Vec::new();
    let mut i: usize = 0;
    while i < pts.len()
        invariant
            i <= pts@.len(),
            vs@ == sorted_points(pts@.take(i as int)),
            forall|j: int| 0 <= j < vs@.len() ==> pts@.take(i as int).contains(#[trigger] vs@[j]),
        decreases pts.len() - i,
    {
        assert(pts@.take(i + 1).drop_last() =~= pts@.take(i as int));
        let ghost before = vs@;
        insert_point(&mut vs, pts[i]);
        proof {
            lemma_insert_by(before, pts@[i as int], pt_order());
            assert forall|j: int| 0 <= j < vs@.len() implies pts@.take(i + 1).contains(#[trigger] vs@[j]) by {
                let k = stop_by(before, pts@[i as int], pt_order());
                if vs@[j] != pts@[i as int] {
                    if k < before.len() && before[k] == pts@[i as int] {
                        assert(before.contains(vs@[j]));
                    } else if j < k {
                        assert(vs@[j] == before[j]);
                    } else {
                        assert(vs@[j] == before[j - 1]);
                    }
                    let m = choose|m: int| 0 <= m < i && pts@.take(i as int)[m] == vs@[j];
                    assert(pts@.take(i + 1)[m] == vs@[j]);
                } else {
                    assert(pts@.take(i + 1)[i as int] == vs@[j]);
                }
            }
        }
        i += 1;
    }
    assert(pts@.take(i as int) =~= pts@);
    vs
}

/// The wires and notes of one segment appended to those so far.
fn walk_segment(
    sg: &crate::def::Seg,
    k: usize,
    vs: &Vec<Pt>,
    wires: &mut Vec<Wire>,
    at: &mut Vec<(Pt, Vec<Vec<char>>)>,
    Ghost(prior): Ghost<Seq<(Seq<char>, Pt)>>,
)
    requires
        forall|j: int|
            0 <= j < vs@.len() ==> on_segment_fits(
                sg.x1 as int,
                sg.y1 as int,
                sg.x2 as int,
                sg.y2 as int,
                #[trigger] vs@[j].0 as int,
                vs@[j].1 as int,
            ),
        at_view(old(at)@) == note_all(seq![], prior),
        forall|i: int| 0 <= i < old(wires)@.len() ==> wire_named(#[trigger] old(wires)@[i]),
    ensures
        ({
            let c = chain(sg@, vs@);
            &&& final(wires)@.map_values(|w: Wire| w@) == old(wires)@.map_values(|w: Wire| w@)
                + chain_pieces(c, sg.layer@, k as int, c.len() - 1)
            &&& at_view(final(at)@) == note_all(seq![], prior + chain_notes(c, sg.layer@, c.len() - 1))
        }),
        forall|i: int| 0 <= i < final(wires)@.len() ==> wire_named(#[trigger] final(wires)@[i]),
{
    let cs = seg_cuts(sg, vs);
    let mut c: Vec<Pt> = Vec::new();
    c.push((sg.x1, sg.y1));
    let mut t: usize = 0;
    while t < cs.len()
        invariant
            t <= cs@.len(),
            c@ == seq![(sg.x1, sg.y1)] + cs@.take(t as int),
        decreases cs.len() - t,
    {
        c.push(cs[t]);
        assert(cs@.take(t + 1) =~= cs@.take(t as int).push(cs@[t as int]));
        t += 1;
    }
    c.push((sg.x2, sg.y2));
    assert(cs@.take(t as int) =~= cs@);
    assert(c@ =~= chain(sg@, vs@));
    let ghost w0 = old(wires)@.map_values(|w: Wire| w@);
    let layer = chars_of(sg.layer.as_str());
    let mut i: usize = 1;
    assert(chain_pieces(c@, sg.layer@, k as int, 0) =~= Seq::<WireV>::empty());
    assert(chain_notes(c@, sg.layer@, 0) =~= Seq::<(Seq<char>, Pt)>::empty());
    assert(prior + chain_notes(c@, sg.layer@, 0) =~= prior);
    while i < c.len()
        invariant
            1 <= i <= c@.len(),
            c@.len() >= 2,
            layer@ == sg.layer@,
            wires@.map_values(|w: Wire| w@) == w0 + chain_pieces(c@, sg.layer@, k as int, i - 1),
            at_view(at@) == note_all(seq![], prior + chain_notes(c@, sg.layer@, i - 1)),
            forall|j: int| 0 <= j < wires@.len() ==> wire_named(#[trigger] wires@[j]),
        decreases c.len() - i,
    {
        let a = c[i - 1];
        let b = c[i];
        let ghost before = prior + chain_notes(c@, sg.layer@, i - 1);
        note_exec(at, layer.as_slice(), a);
        note_exec(at, layer.as_slice(), b);
        proof {
            lemma_note_all_push(seq![], before, (sg.layer@, a));
            lemma_note_all_push(seq![], before.push((sg.layer@, a)), (sg.layer@, b));
            assert(prior + chain_notes(c@, sg.layer@, i as int) =~= before.push((sg.layer@, a)).push((sg.layer@, b)));
        }
        if !pt_eq(a, b) {
            let w = Wire {
                seg: k,
                layer: string_of(layer.as_slice()),
                a: node_chars(layer.as_slice(), a.0, a.1),
                b: node_chars(layer.as_slice(), b.0, b.1),
                ax: a.0,
                ay: a.1,
                bx: b.0,
                by: b.1,
            };
            wires.push(w);
        }
        proof {
            assert(wires@.map_values(|w: Wire| w@) =~= w0 + chain_pieces(c@, sg.layer@, k as int, i as int));
        }
        i += 1;
    }
}

/// The via bridges at one location, appended.
fn link_location(p: Pt, ls: &Vec<Vec<char>>, links: &mut Vec<ViaLink>)
    requires
        forall|i: int| 0 <= i < old(links)@.len() ==> link_named(#[trigger] old(links)@[i]),
    ensures
        ({
            let o = sort_mi(layers_view(ls@));
            final(links)@.map_values(|l: ViaLink| l@) == old(links)@.map_values(|l: ViaLink| l@) + links_at(
                p,
                o,
                o.len() - 1,
            )
        }),
        forall|i: int| 0 <= i < final(links)@.len() ==> link_named(#[trigger] final(links)@[i]),
{
    let o = sort_mi_exec(ls);
    let ghost ov = layers_view(o@);
    let ghost l0 = old(links)@.map_values(|l: ViaLink| l@);
    let mut i: usize = 1;
    assert(links_at(p, ov, 0) =~= Seq::<LinkV>::empty());
    if o.len() == 0 {
        assert(links_at(p, ov, -1) =~= Seq::<LinkV>::empty());
        assert(links@.map_values(|l: ViaLink| l@) =~= l0 + links_at(p, ov, ov.len() - 1));
        return;
    }
    while i < o.len()
        invariant
            1 <= i <= o@.len(),
            ov == layers_view(o@),
            links@.map_values(|l: ViaLink| l@) == l0 + links_at(p, ov, i - 1),
            forall|j: int| 0 <= j < links@.len() ==> link_named(#[trigger] links@[j]),
        decreases o.len() - i,
    {
        let lo = o[i - 1].as_slice();
        let hi = o[i].as_slice();
        let v = ViaLink {
            x: p.0,
            y: p.1,
            lower: string_of(lo),
            upper: string_of(hi),
            a: node_chars(lo, p.0, p.1),
            b: node_chars(hi, p.0, p.1),
        };
        links.push(v);
        assert(links@.map_values(|l: ViaLink| l@) =~= l0 + links_at(p, ov, i as int));
        i += 1;
    }
}

pub open spec fn opt_i32(o: Option<i32>) -> Option<int> {
    match o {
        Some(x) => Some(x as int),
        None => None,
    }
}

/// The supplying pins' shapes (see `supply_shapes`).
fn supply_shapes_exec(pins: &Vec<crate::sections::Pin>, name: &String) -> (r: Vec<crate::sections::PinShape>)
    ensures
        r@.map_values(|s: crate::sections::PinShape| s@) == supply_shapes(
            pins@.map_values(|p: crate::sections::Pin| p@),
            name@,
        ),
{
    let ghost pv = pins@.map_values(|p: crate::sections::Pin| p@);
    let nc = chars_of(name.as_str());
    let mut r: Vec<crate::sections::PinShape> = Vec::new();
    let mut i: usize = 0;
    assert(r@.map_values(|s: crate::sections::PinShape| s@) =~= supply_shapes(pv.take(0), name@));
    while i < pins.len()
        invariant
            i <= pins@.len(),
            pv == pins@.map_values(|p: crate::sections::Pin| p@),
            nc@ == name@,
            r@.map_values(|s: crate::sections::PinShape| s@) == supply_shapes(pv.take(i as int), name@),
        decreases pins.len() - i,
    {
        assert(pv.take(i + 1).drop_last() =~= pv.take(i as int));
        assert(pv.take(i + 1).last() == pins@[i as int]@);
        let p = &pins[i];
        let ghost r0 = r@.map_values(|s: crate::sections::PinShape| s@);
        if (p.use_power || p.use_ground) && (crate::lef::same_chars(chars_of(p.net.as_str()).as_slice(), nc.as_slice())
            || crate::lef::same_chars(chars_of(p.name.as_str()).as_slice(), nc.as_slice())) {
            let mut j: usize = 0;
            while j < p.shapes.len()
                invariant
                    j <= p.shapes@.len(),
                    r@.map_values(|s: crate::sections::PinShape| s@) == r0 + p@.shapes.take(j as int),
                decreases p.shapes.len() - j,
            {
                let sj = &p.shapes[j];
                r.push(crate::sections::PinShape { layer: sj.layer.clone(), x1: sj.x1, y1: sj.y1, x2: sj.x2, y2: sj.y2 });
                assert(r@.map_values(|s: crate::sections::PinShape| s@) =~= r0 + p@.shapes.take(j + 1));
                j += 1;
            }
            assert(p@.shapes.take(j as int) =~= p@.shapes);
        }
        i += 1;
    }
    assert(pv.take(i as int) =~= pv);
    r
}

fn covered_exec(sh: &Vec<crate::sections::PinShape>, l: &[char], p: Pt) -> (b: bool)
    ensures
        b == covered(sh@.map_values(|s: crate::sections::PinShape| s@), l@, p, sh@.len() as int),
{
    let ghost sv = sh@.map_values(|s: crate::sections::PinShape| s@);
    let mut i: usize = 0;
    let mut b = false;
    while i < sh.len()
        invariant
            i <= sh@.len(),
            sv == sh@.map_values(|s: crate::sections::PinShape| s@),
            b == covered(sv, l@, p, i as int),
        decreases sh.len() - i,
    {
        let s = &sh[i];
        let lc = chars_of(s.layer.as_str());
        let c = crate::lef::same_chars(lc.as_slice(), l) && s.x1 <= p.0 && p.0 <= s.x2 && s.y1 <= p.1 && p.1 <= s.y2;
        b = c || b;
        i += 1;
    }
    b
}

/// The load node nearest `c` (see `nearest`).
fn nearest_exec(ns: &Vec<GridNode>, c: Pt) -> (r: Option<usize>)
    ensures
        match r {
            Some(i) => i < ns@.len() && nearest(ns@.map_values(|n: GridNode| node_view(n)), c, ns@.len() as int)
                == Some(node_view(ns@[i as int])),
            None => nearest(ns@.map_values(|n: GridNode| node_view(n)), c, ns@.len() as int) is None,
        },
{
    let ghost nv = ns@.map_values(|n: GridNode| node_view(n));
    let mut best: Option<(usize, (bool, u128))> = None;
    let mut i: usize = 0;
    while i < ns.len()
        invariant
            i <= ns@.len(),
            nv == ns@.map_values(|n: GridNode| node_view(n)),
            match best {
                Some(b) => b.0 < i && nearest(nv, c, i as int) == Some(nv[b.0 as int]) && dval(b.1) == dist(
                    nv[b.0 as int].1,
                    c,
                ),
                None => nearest(nv, c, i as int) is None && i == 0,
            },
        decreases ns.len() - i,
    {
        let d = dist_exact((ns[i].x, ns[i].y), c);
        match best {
            None => {
                best = Some((i, d));
            },
            Some(b) => {
                if dist_lt(d, b.1) {
                    best = Some((i, d));
                }
            },
        }
        i += 1;
    }
    match best {
        Some(b) => Some(b.0),
        None => None,
    }
}

/// Extracts the grid topology of the DEF's power net (see `spec_topology`):
/// `pad_layer` is the supply layer used when the design declares no power pin, and
/// `loaded` lists the instances that carry current, each with the point its current
/// is drawn from.
pub fn extract_topology(def: &crate::def::Def, pad_layer: &str, loaded: &[(String, i64, i64)]) -> (r: Result<
    Topology,
    String,
>)
    requires
        match crate::def::spec_power_net(crate::def::nets_view(def.nets@)) {
            Some(k) => net_fits(
                crate::def::nets_view(def.nets@)[k],
                pad_layer@,
                loaded@.map_values(|i: (String, i64, i64)| inst_view(i)),
            ),
            None => true,
        },
    ensures
        match r {
            Ok(t) => spec_topology(
                crate::def::nets_view(def.nets@),
                def.pins@.map_values(|p: crate::sections::Pin| p@),
                pad_layer@,
                loaded@.map_values(|i: (String, i64, i64)| inst_view(i)),
            ) matches Ok(v) && topology_matches(t, v),
            Err(e) => spec_topology(
                crate::def::nets_view(def.nets@),
                def.pins@.map_values(|p: crate::sections::Pin| p@),
                pad_layer@,
                loaded@.map_values(|i: (String, i64, i64)| inst_view(i)),
            ) == Err::<TopologyV, Seq<char>>(e@),
        },
{
    let ghost lv = loaded@.map_values(|i: (String, i64, i64)| inst_view(i));
    let net = match def.power_net() {
        Some(n) => n,
        None => {
            return Err("no power net in DEF".to_string());
        },
    };
    let ghost nv = net@;
    if net.segs.len() == 0 {
        let mut m: Vec<char> = Vec::new();
        push_str(&mut m, "power net ");
        let d = crate::text::debug_str(net.name.as_str());
        push_chars(&mut m, chars_of(d.as_str()).as_slice());
        push_str(&mut m, " has no routed segments");
        return Err(string_of(m.as_slice()));
    }
    let pad = chars_of(pad_layer);
    // where instance current enters, and the points wires are cut at
    let ts = taps_exec(net, pad.as_slice(), loaded);
    let cl = cut_list(net, &ts);
    let cs = sorted_exec(cl.as_slice());
    let ghost csv = cs@;
    assert(csv == cut_points(nv, pad_layer@, lv));
    let vs = sorted_exec(net.vias.as_slice());
    let ghost vsv = vs@;
    // wires and the layers met at every point
    let mut wires: Vec<Wire> = Vec::new();
    let mut at: Vec<(Pt, Vec<Vec<char>>)> = Vec::new();
    let mut k: usize = 0;
    assert(at_view(at@) =~= note_all(seq![], all_notes(nv.segs, csv, 0)));
    assert(wires@.map_values(|w: Wire| w@) =~= all_pieces(nv.segs, csv, 0));
    while k < net.segs.len()
        invariant
            k <= net.segs@.len(),
            nv == net@,
            csv == cs@,
            fits_with(nv, cl@),
            forall|j: int| 0 <= j < cs@.len() ==> cl@.contains(#[trigger] cs@[j]),
            wires@.map_values(|w: Wire| w@) == all_pieces(nv.segs, csv, k as int),
            at_view(at@) == note_all(seq![], all_notes(nv.segs, csv, k as int)),
            forall|j: int| 0 <= j < wires@.len() ==> wire_named(#[trigger] wires@[j]),
        decreases net.segs.len() - k,
    {
        let sg = &net.segs[k];
        assert(nv.segs[k as int] == sg@);
        assert forall|j: int| 0 <= j < cs@.len() implies on_segment_fits(
            sg.x1 as int,
            sg.y1 as int,
            sg.x2 as int,
            sg.y2 as int,
            #[trigger] cs@[j].0 as int,
            cs@[j].1 as int,
        ) by {
            let m = choose|m: int| 0 <= m < cl@.len() && cl@[m] == cs@[j];
            assert(nv.segs[k as int].x1 == sg.x1);
            assert(cl@[m] == cs@[j]);
        }
        walk_segment(sg, k, &cs, &mut wires, &mut at, Ghost(all_notes(nv.segs, csv, k as int)));
        proof {
            assert(all_pieces(nv.segs, csv, k + 1) == all_pieces(nv.segs, csv, k as int) + seg_pieces(
                nv.segs,
                csv,
                k as int,
            ));
            assert(all_notes(nv.segs, csv, k + 1) == all_notes(nv.segs, csv, k as int) + seg_notes(
                nv.segs,
                csv,
                k as int,
            ));
        }
        k += 1;
    }
    // every named point is a node too
    let ghost at_segs = at_view(at@);
    let ghost pn = point_notes(nv.points);
    let mut j: usize = 0;
    assert(note_all(at_segs, pn.take(0)) == at_segs) by {
        assert(pn.take(0) =~= Seq::<(Seq<char>, Pt)>::empty());
    }
    while j < net.points.len()
        invariant
            j <= net.points@.len(),
            nv == net@,
            pn == point_notes(nv.points),
            at_view(at@) == note_all(at_segs, pn.take(j as int)),
        decreases net.points.len() - j,
    {
        let pt = &net.points[j];
        let lc = chars_of(pt.0.as_str());
        assert(pn[j as int] == (lc@, (pt.1, pt.2)));
        note_exec(&mut at, lc.as_slice(), (pt.1, pt.2));
        proof {
            assert(pn.take(j + 1) =~= pn.take(j as int).push(pn[j as int]));
            lemma_note_all_push(at_segs, pn.take(j as int), pn[j as int]);
        }
        j += 1;
    }
    assert(pn.take(j as int) =~= pn);
    let ghost atv = at_view(at@);
    assert(atv == net_at(nv, csv));
    // via bridges between stack-adjacent layers at each via location
    let mut links: Vec<ViaLink> = Vec::new();
    let mut n: usize = 0;
    assert(links@.map_values(|l: ViaLink| l@) =~= via_links(vsv, atv, 0));
    while n < vs.len()
        invariant
            n <= vs@.len(),
            vsv == vs@,
            atv == at_view(at@),
            links@.map_values(|l: ViaLink| l@) == via_links(vsv, atv, n as int),
            forall|q: int| 0 <= q < links@.len() ==> link_named(#[trigger] links@[q]),
        decreases vs.len() - n,
    {
        match lookup_at_exec(&at, vs[n]) {
            Some(e) => {
                link_location(vs[n], &at[e].1, &mut links);
            },
            None => {},
        }
        n += 1;
    }
    // supply nodes: those inside the power pin's shapes
    let sh = supply_shapes_exec(&def.pins, &net.name);
    let ghost shv = sh@.map_values(|s: crate::sections::PinShape| s@);
    let mut pads: Vec<GridNode> = Vec::new();
    let mut m: usize = 0;
    assert(pads@.map_values(|g: GridNode| node_view(g)) =~= pin_pads(atv, shv, 0));
    while m < at.len()
        invariant
            m <= at@.len(),
            atv == at_view(at@),
            shv == sh@.map_values(|s: crate::sections::PinShape| s@),
            pads@.map_values(|g: GridNode| node_view(g)) == pin_pads(atv, shv, m as int),
            forall|q: int| 0 <= q < pads@.len() ==> node_named(#[trigger] pads@[q]),
        decreases at.len() - m,
    {
        let key = key_of(&at[m]);
        let ls = &at[m].1;
        let ghost lsv = layers_view(ls@);
        assert(atv[m as int] == (key, lsv));
        let ghost base = pads@.map_values(|g: GridNode| node_view(g));
        let mut q: usize = 0;
        assert(base + pin_pads_at(key, lsv, shv, 0) =~= base);
        while q < ls.len()
            invariant
                q <= ls@.len(),
                lsv == layers_view(ls@),
                shv == sh@.map_values(|s: crate::sections::PinShape| s@),
                pads@.map_values(|g: GridNode| node_view(g)) == base + pin_pads_at(key, lsv, shv, q as int),
                forall|t: int| 0 <= t < pads@.len() ==> node_named(#[trigger] pads@[t]),
            decreases ls.len() - q,
        {
            let l = ls[q].as_slice();
            if covered_exec(&sh, l, key) {
                pads.push(grid_node(l, key.0, key.1));
            }
            proof {
                assert(pads@.map_values(|g: GridNode| node_view(g)) =~= base + pin_pads_at(key, lsv, shv, q + 1));
            }
            q += 1;
        }
        m += 1;
    }
    // else every point with a node on the pad layer
    if pads.len() == 0 {
        let mut m: usize = 0;
        assert(pads@.map_values(|g: GridNode| node_view(g)) =~= pad_points(atv, pad_layer@, 0).map_values(
            |p: Pt| (pad_layer@, p),
        ));
        while m < at.len()
            invariant
                m <= at@.len(),
                atv == at_view(at@),
                pad@ == pad_layer@,
                pads@.map_values(|g: GridNode| node_view(g)) == pad_points(atv, pad_layer@, m as int).map_values(
                    |p: Pt| (pad_layer@, p),
                ),
                forall|q: int| 0 <= q < pads@.len() ==> node_named(#[trigger] pads@[q]),
            decreases at.len() - m,
        {
            let key = key_of(&at[m]);
            assert(atv[m as int] == (key, layers_view(at@[m as int].1@)));
            if contains_layer(&at[m].1, pad.as_slice()) {
                pads.push(grid_node(pad.as_slice(), key.0, key.1));
            }
            proof {
                assert(pads@.map_values(|g: GridNode| node_view(g)) =~= pad_points(atv, pad_layer@, m + 1).map_values(
                    |p: Pt| (pad_layer@, p),
                ));
            }
            m += 1;
        }
    }
    assert(pads@.map_values(|g: GridNode| node_view(g)) == supply(atv, pad_layer@, shv));
    // the lowest metal below the pad layer
    let mut low: Option<i32> = None;
    let mut m: usize = 0;
    while m < at.len()
        invariant
            m <= at@.len(),
            atv == at_view(at@),
            pad@ == pad_layer@,
            opt_i32(low) == lowest_mi(atv, pad_layer@, m as int),
        decreases at.len() - m,
    {
        let ls = &at[m].1;
        let ghost lsv = layers_view(ls@);
        assert(atv[m as int].1 == lsv);
        let ghost acc0 = opt_i32(low);
        let mut q: usize = 0;
        while q < ls.len()
            invariant
                q <= ls@.len(),
                lsv == layers_view(ls@),
                pad@ == pad_layer@,
                opt_i32(low) == lowest_in(lsv, pad_layer@, acc0, q as int),
            decreases ls.len() - q,
        {
            if !crate::lef::same_chars(ls[q].as_slice(), pad.as_slice()) {
                let mi = metal_index_chars(ls[q].as_slice());
                low = match low {
                    Some(x) => if mi < x { Some(mi) } else { Some(x) },
                    None => Some(mi),
                };
            }
            q += 1;
        }
        m += 1;
    }
    // load nodes: every node on that lowest metal
    let mut loads: Vec<GridNode> = Vec::new();
    let mut m: usize = 0;
    assert(loads@.map_values(|g: GridNode| node_view(g)) =~= load_nodes(atv, pad_layer@, opt_i32(low), 0));
    while m < at.len()
        invariant
            m <= at@.len(),
            atv == at_view(at@),
            pad@ == pad_layer@,
            loads@.map_values(|g: GridNode| node_view(g)) == load_nodes(atv, pad_layer@, opt_i32(low), m as int),
            forall|q: int| 0 <= q < loads@.len() ==> node_named(#[trigger] loads@[q]),
        decreases at.len() - m,
    {
        let key = key_of(&at[m]);
        let ls = &at[m].1;
        let ghost lsv = layers_view(ls@);
        assert(atv[m as int] == (key, lsv));
        let ghost base = loads@.map_values(|g: GridNode| node_view(g));
        let mut q: usize = 0;
        assert(base + load_at(key, lsv, pad_layer@, opt_i32(low), 0) =~= base);
        while q < ls.len()
            invariant
                q <= ls@.len(),
                lsv == layers_view(ls@),
                pad@ == pad_layer@,
                loads@.map_values(|g: GridNode| node_view(g)) == base + load_at(key, lsv, pad_layer@, opt_i32(low), q as int),
                forall|t: int| 0 <= t < loads@.len() ==> node_named(#[trigger] loads@[t]),
            decreases ls.len() - q,
        {
            let l = ls[q].as_slice();
            if !crate::lef::same_chars(l, pad.as_slice()) {
                let mi = metal_index_chars(l);
                if low.is_some() && low.unwrap() == mi {
                    loads.push(grid_node(l, key.0, key.1));
                }
            }
            proof {
                assert(loads@.map_values(|g: GridNode| node_view(g)) =~= base + load_at(key, lsv, pad_layer@, opt_i32(low), q + 1));
            }
            q += 1;
        }
        m += 1;
    }
    let ghost lnv = loads@.map_values(|g: GridNode| node_view(g));
    // where each instance's current enters
    let rail = rail_exec(net, pad.as_slice());
    let mut taps_out: Vec<Option<GridNode>> = Vec::new();
    let mut k: usize = 0;
    while k < loaded.len()
        invariant
            k <= loaded@.len(),
            lv == loaded@.map_values(|i: (String, i64, i64)| inst_view(i)),
            nv == net@,
            ts@ == taps(nv, pad_layer@, lv),
            lnv == loads@.map_values(|g: GridNode| node_view(g)),
            match rail {
                Some(i) => i < net.segs@.len() && rail_layer(nv.segs, pad_layer@, nv.segs.len() as int) == Some(
                    nv.segs[i as int].layer,
                ),
                None => rail_layer(nv.segs, pad_layer@, nv.segs.len() as int) is None,
            },
            taps_out@.map_values(|o: Option<GridNode>| opt_node_view(o)) == lv.take(k as int).map_values(
                |i: Inst| entry_node(nv, pad_layer@, lnv, i),
            ),
            forall|q: int| 0 <= q < taps_out@.len() ==> (#[trigger] taps_out@[q] matches Some(n) ==> node_named(n)),
            forall|q: int| 0 <= q < loads@.len() ==> node_named(#[trigger] loads@[q]),
        decreases loaded.len() - k,
    {
        assert(ts@[k as int] == tap_of(nv, pad_layer@, (loaded@[k as int].1, loaded@[k as int].2)));
        let e: Option<GridNode> = match ts[k] {
            Some(p) => {
                let ri = rail.unwrap();
                let rc = chars_of(net.segs[ri].layer.as_str());
                Some(grid_node(rc.as_slice(), p.0, p.1))
            },
            None => match nearest_exec(&loads, (loaded[k].1, loaded[k].2)) {
                Some(i) => {
                    let lc = chars_of(loads[i].layer.as_str());
                    Some(grid_node(lc.as_slice(), loads[i].x, loads[i].y))
                },
                None => None,
            },
        };
        taps_out.push(e);
        assert(taps_out@.map_values(|o: Option<GridNode>| opt_node_view(o)) =~= lv.take(k + 1).map_values(
            |i: Inst| entry_node(nv, pad_layer@, lnv, i),
        ));
        k += 1;
    }
    assert(lv.take(k as int) =~= lv);
    Ok(Topology { net_name: net.name.clone(), wires, vias: links, pads, load_nodes: loads, taps: taps_out })
}

// ---------------------------------------------------------------------------------
// Via definitions at a bridge.
// ---------------------------------------------------------------------------------

/// The definition of via `n`: its last entry.
pub open spec fn def_lookup(defs: Seq<(Seq<char>, crate::sections::ViaDefV)>, n: Seq<char>) -> Option<
    crate::sections::ViaDefV,
>
    decreases defs.len(),
{
    if defs.len() == 0 {
        None
    } else if defs.last().0 == n {
        Some(defs.last().1)
    } else {
        def_lookup(defs.drop_last(), n)
    }
}

/// A definition's layers in stack order: lower metal first.
pub open spec fn stack_pair(d: crate::sections::ViaDefV) -> (Seq<char>, Seq<char>) {
    if spec_metal_index(d.below) <= spec_metal_index(d.above) {
        (d.below, d.above)
    } else {
        (d.above, d.below)
    }
}

/// The definitions of the vias placed at `p` (among the first `n` placements) that
/// join `lower` to `upper`, in placement order.
pub open spec fn via_candidates(
    names: Seq<(Seq<char>, i64, i64)>,
    defs: Seq<(Seq<char>, crate::sections::ViaDefV)>,
    p: Pt,
    lower: Seq<char>,
    upper: Seq<char>,
    n: int,
) -> Seq<crate::sections::ViaDefV>
    decreases n,
{
    if n <= 0 {
        seq![]
    } else {
        let r = via_candidates(names, defs, p, lower, upper, n - 1);
        let v = names[n - 1];
        if (v.1, v.2) == p {
            match def_lookup(defs, v.0) {
                Some(d) => if stack_pair(d) == (lower, upper) { r.push(d) } else { r },
                None => r,
            }
        } else {
            r
        }
    }
}

fn def_lookup_exec(defs: &Vec<(String, crate::sections::ViaDef)>, n: &[char]) -> (r: Option<usize>)
    ensures
        match r {
            Some(i) => i < defs@.len() && def_lookup(
                defs@.map_values(|v: (String, crate::sections::ViaDef)| crate::sections::via_def_view(v)),
                n@,
            ) == Some(defs@[i as int].1@),
            None => def_lookup(
                defs@.map_values(|v: (String, crate::sections::ViaDef)| crate::sections::via_def_view(v)),
                n@,
            ) is None,
        },
{
    let ghost dv = defs@.map_values(|v: (String, crate::sections::ViaDef)| crate::sections::via_def_view(v));
    let mut i = defs.len();
    assert(dv.take(i as int) =~= dv);
    while i > 0
        invariant
            i <= defs@.len(),
            dv == defs@.map_values(|v: (String, crate::sections::ViaDef)| crate::sections::via_def_view(v)),
            def_lookup(dv, n@) == def_lookup(dv.take(i as int), n@),
        decreases i,
    {
        assert(dv.take(i as int).drop_last() =~= dv.take(i - 1));
        if crate::lef::same_chars(chars_of(defs[i - 1].0.as_str()).as_slice(), n) {
            return Some(i - 1);
        }
        i -= 1;
    }
    None
}

/// The definitions of the power net's vias placed at `(x, y)` that join `lower` to
/// `upper` (see `via_candidates`); a bridge is priced by the last of them whose cut
/// resistance is known.
pub fn via_definitions(def: &crate::def::Def, x: i64, y: i64, lower: &str, upper: &str) -> (r: Vec<
    crate::sections::ViaDef,
>)
    ensures
        r@.map_values(|d: crate::sections::ViaDef| d@) == match crate::def::spec_power_net(
            crate::def::nets_view(def.nets@),
        ) {
            Some(k) => via_candidates(
                crate::def::nets_view(def.nets@)[k].via_names,
                def.via_defs@.map_values(|v: (String, crate::sections::ViaDef)| crate::sections::via_def_view(v)),
                (x, y),
                lower@,
                upper@,
                crate::def::nets_view(def.nets@)[k].via_names.len() as int,
            ),
            None => seq![],
        },
{
    let mut r: Vec<crate::sections::ViaDef> = Vec::new();
    let net = match def.power_net() {
        Some(n) => n,
        None => {
            assert(r@.map_values(|d: crate::sections::ViaDef| d@) =~= Seq::<crate::sections::ViaDefV>::empty());
            return r;
        },
    };
    let ghost names = net@.via_names;
    let ghost dv = def.via_defs@.map_values(|v: (String, crate::sections::ViaDef)| crate::sections::via_def_view(v));
    let lo = chars_of(lower);
    let hi = chars_of(upper);
    let mut i: usize = 0;
    assert(r@.map_values(|d: crate::sections::ViaDef| d@) =~= via_candidates(names, dv, (x, y), lower@, upper@, 0));
    while i < net.via_names.len()
        invariant
            i <= net.via_names@.len(),
            names == net@.via_names,
            dv == def.via_defs@.map_values(|v: (String, crate::sections::ViaDef)| crate::sections::via_def_view(v)),
            lo@ == lower@,
            hi@ == upper@,
            r@.map_values(|d: crate::sections::ViaDef| d@) == via_candidates(names, dv, (x, y), lower@, upper@, i as int),
        decreases net.via_names.len() - i,
    {
        let v = &net.via_names[i];
        assert(names[i as int] == crate::def::point_view(*v));
        if v.1 == x && v.2 == y {
            let nc = chars_of(v.0.as_str());
            match def_lookup_exec(&def.via_defs, nc.as_slice()) {
                Some(j) => {
                    let d = &def.via_defs[j].1;
                    let b = chars_of(d.below.as_str());
                    let a = chars_of(d.above.as_str());
                    let up = metal_index_chars(b.as_slice()) <= metal_index_chars(a.as_slice());
                    let (l1, l2) = if up { (b, a) } else { (a, b) };
                    if crate::lef::same_chars(l1.as_slice(), lo.as_slice()) && crate::lef::same_chars(
                        l2.as_slice(),
                        hi.as_slice(),
                    ) {
                        r.push(
                            crate::sections::ViaDef {
                                below: d.below.clone(),
                                cut_layer: d.cut_layer.clone(),
                                above: d.above.clone(),
                                cuts: d.cuts,
                            },
                        );
                    }
                },
                None => {},
            }
        }
        assert(r@.map_values(|d: crate::sections::ViaDef| d@) =~= via_candidates(
            names,
            dv,
            (x, y),
            lower@,
            upper@,
            i + 1,
        ));
        i += 1;
    }
    r
}

/// The value of an exact squared distance: a carry above `u128` and the low part.
pub open spec fn dval(d: (bool, u128)) -> int {
    (if d.0 { 0x1_0000_0000_0000_0000_0000_0000_0000_0000int } else { 0int }) + d.1
}

fn sq_abs(a: i64, b: i64) -> (r: u128)
    ensures
        r == (a - b) * (a - b),
{
    let d = a as i128 - b as i128;
    let m: u128 = if d < 0 { (-d) as u128 } else { d as u128 };
    assert(m <= 0xffff_ffff_ffff_ffffu128);
    assert(m * m <= 0xffff_ffff_ffff_ffffu128 * 0xffff_ffff_ffff_ffffu128) by (nonlinear_arith)
        requires
            m <= 0xffff_ffff_ffff_ffffu128,
    ;
    assert(m * m == (a - b) * (a - b)) by (nonlinear_arith)
        requires
            m == d || m == -d,
            d == a - b,
    ;
    m * m
}

/// The squared distance of two points, exactly.
fn dist_exact(p: Pt, c: Pt) -> (r: (bool, u128))
    ensures
        dval(r) == dist(p, c),
{
    let x = sq_abs(p.0, c.0);
    let y = sq_abs(p.1, c.1);
    if x > u128::MAX - y {
        (true, x - (u128::MAX - y) - 1)
    } else {
        (false, x + y)
    }
}

fn dist_lt(a: (bool, u128), b: (bool, u128)) -> (r: bool)
    ensures
        r == (dval(a) < dval(b)),
{
    if a.0 != b.0 {
        b.0
    } else {
        a.1 < b.1
    }
}

fn clamp_exec(v: i64, a: i64, b: i64) -> (r: i64)
    ensures
        r == clamp(v, a, b),
{
    let lo = if a <= b { a } else { b };
    let hi = if a <= b { b } else { a };
    if v < lo { lo } else if v > hi { hi } else { v }
}

fn proj_exec(c: Pt, s: &crate::def::Seg) -> (r: Option<Pt>)
    ensures
        r == proj(c, s@),
{
    if s.y1 == s.y2 {
        Some((clamp_exec(c.0, s.x1, s.x2), s.y1))
    } else if s.x1 == s.x2 {
        Some((s.x1, clamp_exec(c.1, s.y1, s.y2)))
    } else {
        None
    }
}

/// The segment whose layer is the rail layer (see `rail_layer`).
fn rail_exec(net: &crate::def::NetGeom, pad: &[char]) -> (r: Option<usize>)
    ensures
        match r {
            Some(i) => i < net.segs@.len() && rail_layer(net@.segs, pad@, net.segs@.len() as int) == Some(
                net@.segs[i as int].layer,
            ),
            None => rail_layer(net@.segs, pad@, net.segs@.len() as int) is None,
        },
{
    let ghost sv = net@.segs;
    let mut best: Option<usize> = None;
    let mut best_mi: i32 = 0;
    let mut i: usize = 0;
    while i < net.segs.len()
        invariant
            i <= net.segs@.len(),
            sv == net@.segs,
            match best {
                Some(b) => b < i && rail_layer(sv, pad@, i as int) == Some(sv[b as int].layer) && best_mi
                    == spec_metal_index(sv[b as int].layer),
                None => rail_layer(sv, pad@, i as int) is None,
            },
        decreases net.segs.len() - i,
    {
        let l = chars_of(net.segs[i].layer.as_str());
        assert(sv[i as int].layer == l@);
        if !crate::lef::same_chars(l.as_slice(), pad) {
            let mi = metal_index_chars(l.as_slice());
            match best {
                None => {
                    best = Some(i);
                    best_mi = mi;
                },
                Some(_) => {
                    if mi < best_mi {
                        best = Some(i);
                        best_mi = mi;
                    }
                },
            }
        }
        i += 1;
    }
    best
}

/// Where an instance at `c` taps the rail (see `tap_of`).
fn tap_exec(net: &crate::def::NetGeom, pad: &[char], rail: Option<usize>, c: Pt) -> (r: Option<Pt>)
    requires
        match rail {
            Some(i) => i < net.segs@.len() && rail_layer(net@.segs, pad@, net.segs@.len() as int) == Some(
                net@.segs[i as int].layer,
            ),
            None => rail_layer(net@.segs, pad@, net.segs@.len() as int) is None,
        },
    ensures
        r == tap_of(net@, pad@, c),
{
    let ri = match rail {
        None => {
            return None;
        },
        Some(i) => i,
    };
    let ghost sv = net@.segs;
    let ghost rl = sv[ri as int].layer;
    let rc = chars_of(net.segs[ri].layer.as_str());
    let mut best: Option<((bool, u128), Pt)> = None;
    let mut i: usize = 0;
    while i < net.segs.len()
        invariant
            i <= net.segs@.len(),
            sv == net@.segs,
            rc@ == rl,
            match best {
                Some(b) => best_proj(c, sv, rl, i as int) == Some((dval(b.0), b.1)),
                None => best_proj(c, sv, rl, i as int) is None,
            },
        decreases net.segs.len() - i,
    {
        let s = &net.segs[i];
        assert(sv[i as int] == s@);
        let l = chars_of(s.layer.as_str());
        if crate::lef::same_chars(l.as_slice(), rc.as_slice()) {
            match proj_exec(c, s) {
                None => {},
                Some(p) => {
                    let d = dist_exact(p, c);
                    match best {
                        None => {
                            best = Some((d, p));
                        },
                        Some(q) => {
                            if dist_lt(d, q.0) {
                                best = Some((d, p));
                            }
                        },
                    }
                },
            }
        }
        i += 1;
    }
    match best {
        Some(b) => Some(b.1),
        None => None,
    }
}

/// The taps of the loaded instances (see `taps`).
fn taps_exec(net: &crate::def::NetGeom, pad: &[char], loaded: &[(String, i64, i64)]) -> (r: Vec<Option<Pt>>)
    ensures
        r@ == taps(net@, pad@, loaded@.map_values(|i: (String, i64, i64)| inst_view(i))),
{
    let ghost lv = loaded@.map_values(|i: (String, i64, i64)| inst_view(i));
    let rail = rail_exec(net, pad);
    let mut r: Vec<Option<Pt>> = Vec::new();
    let mut k: usize = 0;
    while k < loaded.len()
        invariant
            k <= loaded@.len(),
            lv == loaded@.map_values(|i: (String, i64, i64)| inst_view(i)),
            match rail {
                Some(i) => i < net.segs@.len() && rail_layer(net@.segs, pad@, net.segs@.len() as int) == Some(
                    net@.segs[i as int].layer,
                ),
                None => rail_layer(net@.segs, pad@, net.segs@.len() as int) is None,
            },
            r@ == taps(net@, pad@, lv).take(k as int),
        decreases loaded.len() - k,
    {
        let t = tap_exec(net, pad, rail, (loaded[k].1, loaded[k].2));
        r.push(t);
        assert(r@ =~= taps(net@, pad@, lv).take(k + 1));
        k += 1;
    }
    assert(taps(net@, pad@, lv).take(k as int) =~= taps(net@, pad@, lv));
    r
}

/// The via locations followed by the tap points.
fn cut_list(net: &crate::def::NetGeom, ts: &Vec<Option<Pt>>) -> (r: Vec<Pt>)
    ensures
        r@ == net@.vias + tap_points(ts@),
{
    let mut r: Vec<Pt> = Vec::new();
    let mut i: usize = 0;
    while i < net.vias.len()
        invariant
            i <= net.vias@.len(),
            r@ == net@.vias.take(i as int),
        decreases net.vias.len() - i,
    {
        r.push(net.vias[i]);
        assert(r@ =~= net@.vias.take(i + 1));
        i += 1;
    }
    assert(net@.vias.take(i as int) =~= net@.vias);
    let mut k: usize = 0;
    assert(tap_points(ts@.take(0)) =~= Seq::<Pt>::empty());
    assert(r@ =~= net@.vias + tap_points(ts@.take(0)));
    while k < ts.len()
        invariant
            k <= ts@.len(),
            r@ == net@.vias + tap_points(ts@.take(k as int)),
        decreases ts.len() - k,
    {
        assert(ts@.take(k + 1).drop_last() =~= ts@.take(k as int));
        match ts[k] {
            Some(p) => r.push(p),
            None => {},
        }
        assert(r@ =~= net@.vias + tap_points(ts@.take(k + 1)));
        k += 1;
    }
    assert(ts@.take(k as int) =~= ts@);
    r
}

/// Whether the on-segment test stays in range for every segment and point (see
/// `fits_with`).
fn points_fit(net: &crate::def::NetGeom, pts: &Vec<Pt>) -> (b: bool)
    ensures
        b == fits_with(net@, pts@),
{
    let ghost nv = net@;
    let mut i: usize = 0;
    while i < net.segs.len()
        invariant
            i <= net.segs@.len(),
            nv == net@,
            forall|a: int, b: int|
                0 <= a < i && 0 <= b < pts@.len() ==> on_segment_fits(
                    #[trigger] nv.segs[a].x1 as int,
                    nv.segs[a].y1 as int,
                    nv.segs[a].x2 as int,
                    nv.segs[a].y2 as int,
                    #[trigger] pts@[b].0 as int,
                    pts@[b].1 as int,
                ),
        decreases net.segs.len() - i,
    {
        let sg = &net.segs[i];
        assert(nv.segs[i as int] == sg@);
        let mut j: usize = 0;
        while j < pts.len()
            invariant
                j <= pts@.len(),
                i < net.segs@.len(),
                nv == net@,
                nv.segs[i as int] == sg@,
                forall|a: int, b: int|
                    0 <= a < i && 0 <= b < pts@.len() ==> on_segment_fits(
                        #[trigger] nv.segs[a].x1 as int,
                        nv.segs[a].y1 as int,
                        nv.segs[a].x2 as int,
                        nv.segs[a].y2 as int,
                        #[trigger] pts@[b].0 as int,
                        pts@[b].1 as int,
                    ),
                forall|b: int|
                    0 <= b < j ==> on_segment_fits(
                        sg.x1 as int,
                        sg.y1 as int,
                        sg.x2 as int,
                        sg.y2 as int,
                        #[trigger] pts@[b].0 as int,
                        pts@[b].1 as int,
                    ),
            decreases pts.len() - j,
        {
            let v = pts[j];
            if on_segment_checked(sg.x1, sg.y1, sg.x2, sg.y2, v.0, v.1).is_none() {
                assert(!fits_with(nv, pts@)) by {
                    assert(!on_segment_fits(
                        nv.segs[i as int].x1 as int,
                        nv.segs[i as int].y1 as int,
                        nv.segs[i as int].x2 as int,
                        nv.segs[i as int].y2 as int,
                        pts@[j as int].0 as int,
                        pts@[j as int].1 as int,
                    ));
                }
                return false;
            }
            j += 1;
        }
        assert forall|a: int, b: int|
            0 <= a < i + 1 && 0 <= b < pts@.len() implies on_segment_fits(
                #[trigger] nv.segs[a].x1 as int,
                nv.segs[a].y1 as int,
                nv.segs[a].x2 as int,
                nv.segs[a].y2 as int,
                #[trigger] pts@[b].0 as int,
                pts@[b].1 as int,
            ) by {
            if a == i {
                assert(nv.segs[a] == sg@);
            }
        }
        i += 1;
    }
    true
}

/// Whether `extract_topology` may be called: the on-segment test's `i64` arithmetic
/// stays in range for the power net's segments against its via locations and the
/// instances' taps (the arithmetic overflows otherwise).
pub fn extract_fits(def: &crate::def::Def, pad_layer: &str, loaded: &[(String, i64, i64)]) -> (b: bool)
    ensures
        b == match crate::def::spec_power_net(crate::def::nets_view(def.nets@)) {
            Some(k) => net_fits(
                crate::def::nets_view(def.nets@)[k],
                pad_layer@,
                loaded@.map_values(|i: (String, i64, i64)| inst_view(i)),
            ),
            None => true,
        },
{
    let net = match def.power_net() {
        Some(n) => n,
        None => {
            return true;
        },
    };
    let pad = chars_of(pad_layer);
    let ts = taps_exec(net, pad.as_slice(), loaded);
    let pts = cut_list(net, &ts);
    points_fit(net, &pts)
}


/// Reads a `cell <value> [extra...]` map (switching energy in pJ, or capacitance in
/// pF): lines whose second word is a number, in file order (a later line for a cell
/// overrides an earlier one).
pub fn parse_power_map(text: &str) -> (m: Vec<(String, String)>)
    ensures
        crate::pdn::pairs_view(m@) == crate::emsignoff::spec_current_map(text@).0,
{
    crate::emsignoff::CurrentMap::parse(text).avg
}


// ---------------------------------------------------------------------------------
// Laws of the topology.
// ---------------------------------------------------------------------------------

pub open spec fn mi_sorted(s: Seq<Seq<char>>) -> bool {
    forall|i: int, j: int| 0 <= i < j < s.len() ==> spec_metal_index(s[i]) <= spec_metal_index(s[j])
}

proof fn lemma_insert_mi_sorted(s: Seq<Seq<char>>, l: Seq<char>)
    requires
        mi_sorted(s),
    ensures
        mi_sorted(insert_mi(s, l)),
        insert_mi(s, l).len() == s.len() + 1,
{
    lemma_insert_mi(s, l);
    let k = mi_stop(s, l);
    let r = insert_mi(s, l);
    assert(r =~= s.take(k) + seq![l] + s.skip(k));
    assert forall|i: int, j: int| 0 <= i < j < r.len() implies spec_metal_index(r[i]) <= spec_metal_index(r[j]) by {
        if j < k {
            assert(r[i] == s[i] && r[j] == s[j]);
        } else if j == k {
            assert(r[j] == l);
            assert(r[i] == s[i]);
        } else if i < k {
            assert(r[i] == s[i] && r[j] == s[j - 1]);
        } else if i == k {
            assert(r[i] == l && r[j] == s[j - 1]);
            assert(spec_metal_index(l) < spec_metal_index(s[k]));
            if j - 1 > k {
                assert(spec_metal_index(s[k]) <= spec_metal_index(s[j - 1]));
            }
        } else {
            assert(r[i] == s[i - 1] && r[j] == s[j - 1]);
        }
    }
}

proof fn lemma_sort_mi_sorted(ls: Seq<Seq<char>>)
    ensures
        mi_sorted(sort_mi(ls)),
        sort_mi(ls).len() == ls.len(),
    decreases ls.len(),
{
    if ls.len() > 0 {
        lemma_sort_mi_sorted(ls.drop_last());
        lemma_insert_mi_sorted(sort_mi(ls.drop_last()), ls.last());
    }
}

proof fn lemma_links_at_ordered(p: Pt, ls: Seq<Seq<char>>, i: int)
    requires
        mi_sorted(ls),
    ensures
        forall|q: int| 0 <= q < links_at(p, ls, i).len() ==> {
            &&& spec_metal_index((#[trigger] links_at(p, ls, i)[q]).lower) <= spec_metal_index(links_at(p, ls, i)[q].upper)
            &&& links_at(p, ls, i)[q].pt == p
        },
    decreases i,
{
    if 0 < i < ls.len() {
        lemma_links_at_ordered(p, ls, i - 1);
        let r = links_at(p, ls, i - 1);
        assert forall|q: int| 0 <= q < links_at(p, ls, i).len() implies {
            &&& spec_metal_index((#[trigger] links_at(p, ls, i)[q]).lower) <= spec_metal_index(links_at(p, ls, i)[q].upper)
            &&& links_at(p, ls, i)[q].pt == p
        } by {
            if q < r.len() {
                assert(links_at(p, ls, i)[q] == r[q]);
            }
        }
    }
}

/// Every via bridge joins two layers in stack order: the lower layer's metal index is
/// never above the upper's.
pub proof fn lemma_via_links_in_stack_order(vs: Seq<Pt>, at: AtPoint, n: int)
    ensures
        forall|q: int| 0 <= q < via_links(vs, at, n).len() ==> spec_metal_index((#[trigger] via_links(vs, at, n)[q]).lower)
            <= spec_metal_index(via_links(vs, at, n)[q].upper),
    decreases n,
{
    if n > 0 {
        lemma_via_links_in_stack_order(vs, at, n - 1);
        let r = via_links(vs, at, n - 1);
        match lookup_at(at, vs[n - 1]) {
            Some(ls) => {
                let o = sort_mi(ls);
                lemma_sort_mi_sorted(ls);
                lemma_links_at_ordered(vs[n - 1], o, o.len() - 1);
                let add = links_at(vs[n - 1], o, o.len() - 1);
                assert forall|q: int| 0 <= q < via_links(vs, at, n).len() implies spec_metal_index(
                    (#[trigger] via_links(vs, at, n)[q]).lower,
                ) <= spec_metal_index(via_links(vs, at, n)[q].upper) by {
                    if q < r.len() {
                        assert(via_links(vs, at, n)[q] == r[q]);
                    } else {
                        assert(via_links(vs, at, n)[q] == add[q - r.len()]);
                    }
                }
            },
            None => {},
        }
    }
}

/// Some of the first `n` entries is point `p` with a node on layer `pad`.
pub open spec fn pad_witnessed(at: AtPoint, pad: Seq<char>, n: int, p: Pt) -> bool {
    exists|e: int| 0 <= e < n && at[e].0 == p && #[trigger] at[e].1.contains(pad)
}

/// Without declared power pins, every supply node sits at a point where the grid has a
/// node on the pad layer, and every such point supplies: the pad points are exactly
/// those points, in order.
pub proof fn lemma_pads_are_the_pad_layer_points(at: AtPoint, pad: Seq<char>, n: int)
    requires
        0 <= n <= at.len(),
    ensures
        forall|q: int|
            0 <= q < pad_points(at, pad, n).len() ==> pad_witnessed(at, pad, n, #[trigger] pad_points(at, pad, n)[q]),
        forall|e: int| 0 <= e < n && (#[trigger] at[e]).1.contains(pad) ==> pad_points(at, pad, n).contains(at[e].0),
    decreases n,
{
    if n > 0 {
        lemma_pads_are_the_pad_layer_points(at, pad, n - 1);
        let r = pad_points(at, pad, n - 1);
        assert forall|q: int| 0 <= q < pad_points(at, pad, n).len() implies pad_witnessed(
            at,
            pad,
            n,
            #[trigger] pad_points(at, pad, n)[q],
        ) by {
            if q < r.len() {
                assert(pad_points(at, pad, n)[q] == r[q]);
                assert(pad_witnessed(at, pad, n - 1, r[q]));
                let e = choose|e: int| 0 <= e < n - 1 && at[e].0 == r[q] && #[trigger] at[e].1.contains(pad);
                assert(at[e].1.contains(pad));
            } else {
                assert(pad_points(at, pad, n)[q] == at[n - 1].0);
                assert(at[n - 1].1.contains(pad));
            }
        }
        assert forall|e: int| 0 <= e < n && (#[trigger] at[e]).1.contains(pad) implies pad_points(
            at,
            pad,
            n,
        ).contains(at[e].0) by {
            if e < n - 1 {
                assert(r.contains(at[e].0));
                let q = choose|q: int| 0 <= q < r.len() && r[q] == at[e].0;
                assert(pad_points(at, pad, n)[q] == r[q]);
            } else {
                assert(pad_points(at, pad, n)[r.len() as int] == at[e].0);
            }
        }
    }
}

proof fn lemma_insert_by_keeps<T>(s: Seq<T>, x: T, lt: spec_fn(T, T) -> bool)
    ensures
        insert_by(s, x, lt).contains(x),
        forall|y: T| s.contains(y) ==> #[trigger] insert_by(s, x, lt).contains(y),
{
    lemma_insert_by(s, x, lt);
    let k = stop_by(s, x, lt);
    let r = insert_by(s, x, lt);
    if k < s.len() && s[k] == x {
    } else {
        assert(r[k] == x);
        assert forall|y: T| s.contains(y) implies #[trigger] r.contains(y) by {
            let j = choose|j: int| 0 <= j < s.len() && s[j] == y;
            if j < k {
                assert(r[j] == y);
            } else {
                assert(r[j + 1] == y);
            }
        }
    }
}

proof fn lemma_sorted_points_keeps(ps: Seq<Pt>, v: Pt)
    requires
        ps.contains(v),
    ensures
        sorted_points(ps).contains(v),
    decreases ps.len(),
{
    let d = ps.drop_last();
    lemma_insert_by_keeps(sorted_points(d), ps.last(), pt_order());
    if v != ps.last() {
        let j = choose|j: int| 0 <= j < ps.len() && ps[j] == v;
        assert(d[j] == v);
        lemma_sorted_points_keeps(d, v);
    }
}

proof fn lemma_on_seg_filter_keeps(vs: Seq<Pt>, s: crate::def::SegV, v: Pt)
    requires
        vs.contains(v),
        spec_on_segment(s.x1 as int, s.y1 as int, s.x2 as int, s.y2 as int, v.0 as int, v.1 as int),
    ensures
        on_seg_filter(vs, s).contains(v),
    decreases vs.len(),
{
    let d = vs.drop_last();
    let r = on_seg_filter(d, s);
    if v == vs.last() {
        assert(on_seg_filter(vs, s) == r.push(v));
        assert(r.push(v)[r.len() as int] == v);
    } else {
        let j = choose|j: int| 0 <= j < vs.len() && vs[j] == v;
        assert(d[j] == v);
        lemma_on_seg_filter_keeps(d, s, v);
        let q = choose|q: int| 0 <= q < r.len() && r[q] == v;
        assert(on_seg_filter(vs, s)[q] == v);
    }
}

proof fn lemma_rev_keeps<T>(s: Seq<T>, v: T)
    requires
        s.contains(v),
    ensures
        rev(s).contains(v),
    decreases s.len(),
{
    if v == s.last() {
        assert(rev(s)[0] == v);
    } else {
        let j = choose|j: int| 0 <= j < s.len() && s[j] == v;
        assert(s.drop_last()[j] == v);
        lemma_rev_keeps(s.drop_last(), v);
        let q = choose|q: int| 0 <= q < rev(s.drop_last()).len() && rev(s.drop_last())[q] == v;
        assert(rev(s)[q + 1] == v);
    }
}

/// In a chain whose first point is not `v`, a point equal to `v` is reached by a
/// step from a different point.
proof fn lemma_first_step_into(c: Seq<Pt>, v: Pt, j: int) -> (m: int)
    requires
        1 <= j < c.len(),
        c[j] == v,
        c[0] != v,
    ensures
        1 <= m <= j,
        c[m] == v,
        c[m - 1] != v,
    decreases j,
{
    if c[j - 1] != v {
        j
    } else {
        lemma_first_step_into(c, v, j - 1)
    }
}

proof fn lemma_chain_pieces_has(c: Seq<Pt>, layer: Seq<char>, k: int, i: int, m: int)
    requires
        1 <= m <= i < c.len(),
        c[m - 1] != c[m],
    ensures
        chain_pieces(c, layer, k, i).contains(WireV { seg: k, layer, a: c[m - 1], b: c[m] }),
    decreases i,
{
    let w = WireV { seg: k, layer, a: c[m - 1], b: c[m] };
    let r = chain_pieces(c, layer, k, i - 1);
    if m == i {
        assert(chain_pieces(c, layer, k, i) == r.push(w));
        assert(r.push(w)[r.len() as int] == w);
    } else {
        lemma_chain_pieces_has(c, layer, k, i - 1, m);
        let q = choose|q: int| 0 <= q < r.len() && r[q] == w;
        assert(chain_pieces(c, layer, k, i)[q] == w);
    }
}

proof fn lemma_all_pieces_has(segs: Seq<crate::def::SegV>, vs: Seq<Pt>, n: int, k: int, w: WireV)
    requires
        0 <= k < n,
        seg_pieces(segs, vs, k).contains(w),
    ensures
        all_pieces(segs, vs, n).contains(w),
    decreases n,
{
    let r = all_pieces(segs, vs, n - 1);
    let t = seg_pieces(segs, vs, n - 1);
    if k == n - 1 {
        let q = choose|q: int| 0 <= q < t.len() && t[q] == w;
        assert((r + t)[r.len() + q] == w);
    } else {
        lemma_all_pieces_has(segs, vs, n - 1, k, w);
        let q = choose|q: int| 0 <= q < r.len() && r[q] == w;
        assert((r + t)[q] == w);
    }
}

/// A via or an instance tap that lands strictly inside a wire segment becomes a node
/// of that wire: the segment is split there, so one of its pieces, on the segment's
/// own layer, ends at that point.
pub proof fn lemma_vias_on_a_wire_split_it(
    net: crate::def::NetV,
    pins: Seq<crate::sections::PinV>,
    pad: Seq<char>,
    loaded: Seq<Inst>,
    k: int,
    v: Pt,
)
    requires
        0 <= k < net.segs.len(),
        net.vias.contains(v) || tap_points(taps(net, pad, loaded)).contains(v),
        spec_on_segment(
            net.segs[k].x1 as int,
            net.segs[k].y1 as int,
            net.segs[k].x2 as int,
            net.segs[k].y2 as int,
            v.0 as int,
            v.1 as int,
        ),
    ensures
        exists|q: int|
            0 <= q < net_topology(net, pins, pad, loaded).wires.len() && #[trigger] net_topology(net, pins, pad, loaded).wires[q].seg == k
                && net_topology(net, pins, pad, loaded).wires[q].layer == net.segs[k].layer && net_topology(net, pins, pad, loaded).wires[q].b == v,
{
    let s = net.segs[k];
    let all = net.vias + tap_points(taps(net, pad, loaded));
    let vs = sorted_points(all);
    if net.vias.contains(v) {
        let j = choose|j: int| 0 <= j < net.vias.len() && net.vias[j] == v;
        assert(all[j] == v);
    } else {
        let tp = tap_points(taps(net, pad, loaded));
        let j = choose|j: int| 0 <= j < tp.len() && tp[j] == v;
        assert(all[net.vias.len() + j] == v);
    }
    lemma_sorted_points_keeps(all, v);
    lemma_on_seg_filter_keeps(vs, s, v);
    let f = on_seg_filter(vs, s);
    if walks_backwards(s) {
        lemma_rev_keeps(f, v);
    }
    let cs = cuts(s, vs);
    let c = chain(s, vs);
    let j0 = choose|j: int| 0 <= j < cs.len() && cs[j] == v;
    assert(c[j0 + 1] == v);
    assert(c[0] == (s.x1, s.y1));
    assert(c[0] != v) by {
        if c[0] == v {
            let dx = s.x2 as int - s.x1 as int;
            let dy = s.y2 as int - s.y1 as int;
            let ux = v.0 as int - s.x1 as int;
            let uy = v.1 as int - s.y1 as int;
            assert(ux == 0 && uy == 0);
            assert(ux * dx + uy * dy == 0) by (nonlinear_arith)
                requires
                    ux == 0,
                    uy == 0,
            ;
        }
    }
    let m = lemma_first_step_into(c, v, j0 + 1);
    lemma_chain_pieces_has(c, s.layer, k, c.len() - 1, m);
    let w = WireV { seg: k, layer: s.layer, a: c[m - 1], b: c[m] };
    lemma_all_pieces_has(net.segs, vs, net.segs.len() as int, k, w);
    let ws = net_topology(net, pins, pad, loaded).wires;
    let q = choose|q: int| 0 <= q < ws.len() && ws[q] == w;
    assert(ws[q].seg == k);
}

proof fn lemma_lowest_in_bounds(ls: Seq<Seq<char>>, pad: Seq<char>, acc: Option<int>, n: int)
    requires
        n <= ls.len(),
    ensures
        acc matches Some(a) ==> (lowest_in(ls, pad, acc, n) matches Some(x) && x <= a),
        forall|i: int|
            0 <= i < n && ls[i] != pad ==> (lowest_in(ls, pad, acc, n) matches Some(x) && x <= spec_metal_index(
                #[trigger] ls[i],
            )),
    decreases n,
{
    if n > 0 {
        lemma_lowest_in_bounds(ls, pad, acc, n - 1);
    }
}

proof fn lemma_lowest_mi_bounds(at: AtPoint, pad: Seq<char>, n: int)
    requires
        n <= at.len(),
    ensures
        forall|e: int, i: int|
            0 <= e < n && 0 <= i < at[e].1.len() && at[e].1[i] != pad ==> (lowest_mi(at, pad, n) matches Some(x)
                && x <= spec_metal_index(#[trigger] at[e].1[i])),
    decreases n,
{
    if n > 0 {
        lemma_lowest_mi_bounds(at, pad, n - 1);
        let ls = at[n - 1].1;
        let prev = lowest_mi(at, pad, n - 1);
        lemma_lowest_in_bounds(ls, pad, prev, ls.len() as int);
    }
}

proof fn lemma_load_at_entries(p: Pt, ls: Seq<Seq<char>>, pad: Seq<char>, low: Option<int>, i: int)
    requires
        i <= ls.len(),
    ensures
        forall|q: int|
            0 <= q < load_at(p, ls, pad, low, i).len() ==> (#[trigger] load_at(p, ls, pad, low, i)[q]).0 != pad
                && low == Some(spec_metal_index(load_at(p, ls, pad, low, i)[q].0)),
    decreases i,
{
    if i > 0 {
        lemma_load_at_entries(p, ls, pad, low, i - 1);
        let r = load_at(p, ls, pad, low, i - 1);
        assert forall|q: int| 0 <= q < load_at(p, ls, pad, low, i).len() implies (#[trigger] load_at(
            p,
            ls,
            pad,
            low,
            i,
        )[q]).0 != pad && low == Some(spec_metal_index(load_at(p, ls, pad, low, i)[q].0)) by {
            if q < r.len() {
                assert(load_at(p, ls, pad, low, i)[q] == r[q]);
            }
        }
    }
}

proof fn lemma_load_nodes_entries(at: AtPoint, pad: Seq<char>, low: Option<int>, n: int)
    requires
        n <= at.len(),
    ensures
        forall|q: int|
            0 <= q < load_nodes(at, pad, low, n).len() ==> (#[trigger] load_nodes(at, pad, low, n)[q]).0 != pad
                && low == Some(spec_metal_index(load_nodes(at, pad, low, n)[q].0)),
    decreases n,
{
    if n > 0 {
        lemma_load_nodes_entries(at, pad, low, n - 1);
        let r = load_nodes(at, pad, low, n - 1);
        let t = load_at(at[n - 1].0, at[n - 1].1, pad, low, at[n - 1].1.len() as int);
        lemma_load_at_entries(at[n - 1].0, at[n - 1].1, pad, low, at[n - 1].1.len() as int);
        assert forall|q: int| 0 <= q < load_nodes(at, pad, low, n).len() implies (#[trigger] load_nodes(
            at,
            pad,
            low,
            n,
        )[q]).0 != pad && low == Some(spec_metal_index(load_nodes(at, pad, low, n)[q].0)) by {
            if q < r.len() {
                assert(load_nodes(at, pad, low, n)[q] == r[q]);
            } else {
                assert(load_nodes(at, pad, low, n)[q] == t[q - r.len()]);
            }
        }
    }
}

/// Loads land on the rail layer: every load node is off the pad layer, and no other
/// non-pad layer anywhere in the grid sits lower in the metal stack.
pub proof fn lemma_loads_sit_on_the_lowest_metal(
    net: crate::def::NetV,
    pins: Seq<crate::sections::PinV>,
    pad: Seq<char>,
    loaded: Seq<Inst>,
)
    ensures
        forall|q: int, e: int, i: int|
            0 <= q < net_topology(net, pins, pad, loaded).load_nodes.len() && 0 <= e < net_at(net, cut_points(net, pad, loaded)).len() && 0 <= i
                < net_at(net, cut_points(net, pad, loaded))[e].1.len() && net_at(net, cut_points(net, pad, loaded))[e].1[i] != pad ==> {
                &&& (#[trigger] net_topology(net, pins, pad, loaded).load_nodes[q]).0 != pad
                &&& spec_metal_index(net_topology(net, pins, pad, loaded).load_nodes[q].0) <= spec_metal_index(
                    #[trigger] net_at(net, cut_points(net, pad, loaded))[e].1[i],
                )
            },
{
    let at = net_at(net, cut_points(net, pad, loaded));
    let low = lowest_mi(at, pad, at.len() as int);
    lemma_lowest_mi_bounds(at, pad, at.len() as int);
    lemma_load_nodes_entries(at, pad, low, at.len() as int);
}

proof fn lemma_chain_pieces_path(c: Seq<Pt>, layer: Seq<char>, k: int, i: int)
    requires
        1 <= i < c.len(),
    ensures
        ({
            let ps = chain_pieces(c, layer, k, i);
            &&& ps.len() == 0 ==> c[i] == c[0]
            &&& ps.len() > 0 ==> ps[0].a == c[0] && ps.last().b == c[i]
            &&& forall|j: int| 0 <= j < ps.len() - 1 ==> (#[trigger] ps[j]).b == ps[j + 1].a
            &&& forall|j: int|
                0 <= j < ps.len() ==> (#[trigger] ps[j]).a != ps[j].b && ps[j].seg == k && ps[j].layer == layer
        }),
    decreases i,
{
    let ps = chain_pieces(c, layer, k, i);
    if i == 1 {
        assert(chain_pieces(c, layer, k, 0) =~= Seq::<WireV>::empty());
    } else {
        lemma_chain_pieces_path(c, layer, k, i - 1);
        let r = chain_pieces(c, layer, k, i - 1);
        if c[i - 1] != c[i] {
            assert(ps == r.push(WireV { seg: k, layer, a: c[i - 1], b: c[i] }));
            assert forall|j: int| 0 <= j < ps.len() - 1 implies (#[trigger] ps[j]).b == ps[j + 1].a by {
                if j < r.len() - 1 {
                    assert(ps[j] == r[j] && ps[j + 1] == r[j + 1]);
                } else {
                    assert(ps[j] == r.last());
                }
            }
            assert forall|j: int| 0 <= j < ps.len() implies (#[trigger] ps[j]).a != ps[j].b && ps[j].seg == k
                && ps[j].layer == layer by {
                if j < r.len() {
                    assert(ps[j] == r[j]);
                }
            }
        } else {
            assert(ps == r);
        }
    }
}

/// Each wire segment becomes a path of pieces from its start to its end: the first
/// piece starts where the segment does, each piece ends where the next begins, the
/// last ends where the segment does, and no piece has both ends at one point.
pub proof fn lemma_segment_becomes_a_path(s: crate::def::SegV, vs: Seq<Pt>, k: int)
    requires
        (s.x1, s.y1) != (s.x2, s.y2),
    ensures
        ({
            let c = chain(s, vs);
            let ps = chain_pieces(c, s.layer, k, c.len() - 1);
            &&& ps.len() > 0
            &&& ps[0].a == (s.x1, s.y1)
            &&& ps.last().b == (s.x2, s.y2)
            &&& forall|j: int| 0 <= j < ps.len() - 1 ==> (#[trigger] ps[j]).b == ps[j + 1].a
            &&& forall|j: int|
                0 <= j < ps.len() ==> (#[trigger] ps[j]).a != ps[j].b && ps[j].seg == k && ps[j].layer == s.layer
        }),
{
    let c = chain(s, vs);
    assert(c[0] == (s.x1, s.y1));
    assert(c[c.len() - 1] == (s.x2, s.y2));
    lemma_chain_pieces_path(c, s.layer, k, c.len() - 1);
}

proof fn lemma_best_proj_least(c: Pt, segs: Seq<crate::def::SegV>, rl: Seq<char>, n: int)
    requires
        n <= segs.len(),
    ensures
        forall|j: int|
            0 <= j < n && segs[j].layer == rl && #[trigger] proj(c, segs[j]) is Some ==> (best_proj(c, segs, rl, n) matches Some(
                b,
            ) && b.0 == dist(b.1, c) && b.0 <= dist(proj(c, segs[j])->0, c)),
        best_proj(c, segs, rl, n) matches Some(b) ==> b.0 == dist(b.1, c) && exists|j: int|
            0 <= j < n && segs[j].layer == rl && #[trigger] proj(c, segs[j]) == Some(b.1),
    decreases n,
{
    if n > 0 {
        lemma_best_proj_least(c, segs, rl, n - 1);
    }
}

/// Current enters the rail at the instance's nearest rail point: the tap lies on a
/// segment of the rail layer (its projection there), and no rail segment offers a
/// nearer projection.
pub proof fn lemma_tap_is_the_nearest_rail_point(net: crate::def::NetV, pad: Seq<char>, c: Pt)
    requires
        tap_of(net, pad, c) is Some,
    ensures
        rail_layer(net.segs, pad, net.segs.len() as int) is Some,
        exists|j: int|
            0 <= j < net.segs.len() && net.segs[j].layer == rail_layer(net.segs, pad, net.segs.len() as int)->0
                && #[trigger] proj(c, net.segs[j]) == tap_of(net, pad, c),
        forall|j: int|
            0 <= j < net.segs.len() && net.segs[j].layer == rail_layer(net.segs, pad, net.segs.len() as int)->0
                && #[trigger] proj(c, net.segs[j]) is Some ==> dist(tap_of(net, pad, c)->0, c) <= dist(
                proj(c, net.segs[j])->0,
                c,
            ),
{
    let rl = rail_layer(net.segs, pad, net.segs.len() as int)->0;
    lemma_best_proj_least(c, net.segs, rl, net.segs.len() as int);
}

/// With the net's power pins declared, every supply node lies inside one of their
/// shapes, on the shape's layer.
pub proof fn lemma_pin_supply_is_covered(at: AtPoint, sh: Seq<crate::sections::ShapeV>, n: int)
    requires
        0 <= n <= at.len(),
    ensures
        forall|q: int|
            0 <= q < pin_pads(at, sh, n).len() ==> covered(
                sh,
                (#[trigger] pin_pads(at, sh, n)[q]).0,
                pin_pads(at, sh, n)[q].1,
                sh.len() as int,
            ),
    decreases n,
{
    if n > 0 {
        lemma_pin_supply_is_covered(at, sh, n - 1);
        let r = pin_pads(at, sh, n - 1);
        let p = at[n - 1].0;
        let ls = at[n - 1].1;
        lemma_pin_pads_at_covered(p, ls, sh, ls.len() as int);
        let t = pin_pads_at(p, ls, sh, ls.len() as int);
        assert forall|q: int| 0 <= q < pin_pads(at, sh, n).len() implies covered(
            sh,
            (#[trigger] pin_pads(at, sh, n)[q]).0,
            pin_pads(at, sh, n)[q].1,
            sh.len() as int,
        ) by {
            if q < r.len() {
                assert(pin_pads(at, sh, n)[q] == r[q]);
            } else {
                assert(pin_pads(at, sh, n)[q] == t[q - r.len()]);
            }
        }
    }
}

proof fn lemma_pin_pads_at_covered(p: Pt, ls: Seq<Seq<char>>, sh: Seq<crate::sections::ShapeV>, i: int)
    requires
        i <= ls.len(),
    ensures
        forall|q: int|
            0 <= q < pin_pads_at(p, ls, sh, i).len() ==> covered(
                sh,
                (#[trigger] pin_pads_at(p, ls, sh, i)[q]).0,
                pin_pads_at(p, ls, sh, i)[q].1,
                sh.len() as int,
            ),
    decreases i,
{
    if i > 0 {
        lemma_pin_pads_at_covered(p, ls, sh, i - 1);
        let r = pin_pads_at(p, ls, sh, i - 1);
        assert forall|q: int| 0 <= q < pin_pads_at(p, ls, sh, i).len() implies covered(
            sh,
            (#[trigger] pin_pads_at(p, ls, sh, i)[q]).0,
            pin_pads_at(p, ls, sh, i)[q].1,
            sh.len() as int,
        ) by {
            if q < r.len() {
                assert(pin_pads_at(p, ls, sh, i)[q] == r[q]);
            }
        }
    }
}

} // verus!
