//! EM/IR analysis, structural half: which nodes are unknowns of the conductance
//! system and how every resistor, load, capacitance and switching event attaches to
//! them.
//!
//! Pads are fixed-voltage sources; every other node named by the network is a free
//! node, numbered in the order the network first names it (resistor ends, then
//! loads, capacitances and switching events). The conductances, the solve and the
//! report are arithmetic on top of this and live with the solver.

use vstd::prelude::*;
use crate::pdn::{PdnSpec, Resistor, Switch};
use crate::text::{chars_of, push_chars, push_str, string_of};

verus! {

broadcast use {vstd::string::group_string_axioms, crate::text::lemma_map_push};

/// Why an analysis could not produce a report.
#[derive(Debug, Clone)]
pub enum EmIrError {
    Parse(String),
    Io(String),
    Solver(String),
    /// Reserved: electrothermal coupling (the BCD/power axis) is not modeled.
    ElectrothermalNotModeled,
}

impl EmIrError {
    /// The error as text: `parse error: ...`, `io error: ...`, `solver error: ...`,
    /// or `electrothermal not modeled in v0`.
    pub fn message(&self) -> (s: String)
        ensures
            s@ == match self {
                EmIrError::Parse(m) => "parse error: "@ + m@,
                EmIrError::Io(m) => "io error: "@ + m@,
                EmIrError::Solver(m) => "solver error: "@ + m@,
                EmIrError::ElectrothermalNotModeled => "electrothermal not modeled in v0"@,
            },
    {
        let mut out: Vec<char> = Vec::new();
        match self {
            EmIrError::Parse(m) => {
                push_str(&mut out, "parse error: ");
                push_chars(&mut out, chars_of(m.as_str()).as_slice());
            },
            EmIrError::Io(m) => {
                push_str(&mut out, "io error: ");
                push_chars(&mut out, chars_of(m.as_str()).as_slice());
            },
            EmIrError::Solver(m) => {
                push_str(&mut out, "solver error: ");
                push_chars(&mut out, chars_of(m.as_str()).as_slice());
            },
            EmIrError::ElectrothermalNotModeled => {
                push_str(&mut out, "electrothermal not modeled in v0");
            },
        }
        string_of(out.as_slice())
    }
}

/// Where a resistor end attaches: a free node (its index) or a pad (its index in the
/// pad list; the last pad of that name).
#[derive(Debug, Clone)]
pub enum End {
    Free(usize),
    Pad(usize),
}

/// The unknowns of the network and how everything attaches to them.
#[derive(Debug, Clone)]
pub struct Network {
    /// Free-node names; index `i` is unknown `i`.
    pub free: Vec<String>,
    /// The two ends of every resistor, in resistor order.
    pub ends: Vec<(End, End)>,
    /// The free node of every load, capacitance and switching event (`None`: a pad).
    pub load_at: Vec<Option<usize>>,
    pub cap_at: Vec<Option<usize>>,
    pub switch_at: Vec<Option<usize>>,
}

/// Every node name the network mentions, in the order it first names them.
pub open spec fn mentioned(spec: crate::pdn::PdnSpec) -> Seq<Seq<char>> {
    res_names(spec.resistors@.map_values(|r: Resistor| r@))
        + spec.loads@.map_values(|p: (String, String)| p.0@)
        + spec.caps@.map_values(|p: (String, String)| p.0@)
        + spec.switches@.map_values(|w: Switch| w.node@)
}

pub open spec fn res_names(rs: Seq<crate::pdn::ResistorV>) -> Seq<Seq<char>>
    decreases rs.len(),
{
    if rs.len() == 0 {
        seq![]
    } else {
        res_names(rs.drop_last()).push(rs.last().a).push(rs.last().b)
    }
}

pub open spec fn pad_names(spec: crate::pdn::PdnSpec) -> Seq<Seq<char>> {
    spec.pads@.map_values(|p: (String, String)| p.0@)
}

/// The free nodes among `names`: each name that is not a pad, once, in first order.
pub open spec fn free_of(names: Seq<Seq<char>>, pads: Seq<Seq<char>>) -> Seq<Seq<char>>
    decreases names.len(),
{
    if names.len() == 0 {
        seq![]
    } else {
        let r = free_of(names.drop_last(), pads);
        let n = names.last();
        if pads.contains(n) || r.contains(n) {
            r
        } else {
            r.push(n)
        }
    }
}

/// Index of the first `n` in `s` (or the length).
pub open spec fn index_of(s: Seq<Seq<char>>, n: Seq<char>) -> int
    decreases s.len(),
{
    if s.len() == 0 {
        0
    } else if s[0] == n {
        0
    } else {
        1 + index_of(s.drop_first(), n)
    }
}

/// Index of the last `n` in `s` (or the length when absent).
pub open spec fn last_index_of(s: Seq<Seq<char>>, n: Seq<char>) -> int
    decreases s.len(),
{
    if s.len() == 0 {
        0
    } else if s.last() == n {
        s.len() - 1
    } else if s.drop_last().contains(n) {
        last_index_of(s.drop_last(), n)
    } else {
        s.len() as int
    }
}

pub open spec fn spec_end(free: Seq<Seq<char>>, pads: Seq<Seq<char>>, n: Seq<char>) -> End {
    if free.contains(n) {
        End::Free(index_of(free, n) as usize)
    } else {
        End::Pad(last_index_of(pads, n) as usize)
    }
}

pub open spec fn spec_attach(free: Seq<Seq<char>>, n: Seq<char>) -> Option<usize> {
    if free.contains(n) {
        Some(index_of(free, n) as usize)
    } else {
        None
    }
}


proof fn lemma_index_of(s: Seq<Seq<char>>, n: Seq<char>)
    ensures
        0 <= index_of(s, n) <= s.len(),
        forall|j: int| 0 <= j < index_of(s, n) ==> s[j] != n,
        index_of(s, n) < s.len() ==> s[index_of(s, n)] == n,
        s.contains(n) <==> index_of(s, n) < s.len(),
    decreases s.len(),
{
    if s.len() > 0 {
        lemma_index_of(s.drop_first(), n);
        if s[0] != n {
            assert forall|j: int| 0 <= j < index_of(s, n) implies s[j] != n by {
                if j > 0 {
                    assert(s[j] == s.drop_first()[j - 1]);
                }
            }
            if s.contains(n) {
                let k = choose|k: int| 0 <= k < s.len() && s[k] == n;
                assert(s.drop_first()[k - 1] == n);
            }
            if index_of(s, n) < s.len() {
                assert(s[index_of(s, n)] == s.drop_first()[index_of(s, n) - 1]);
            }
        }
    }
}

proof fn lemma_last_index_of(s: Seq<Seq<char>>, n: Seq<char>)
    ensures
        0 <= last_index_of(s, n) <= s.len(),
        forall|j: int| last_index_of(s, n) < j < s.len() ==> s[j] != n,
        last_index_of(s, n) < s.len() ==> s[last_index_of(s, n)] == n,
        s.contains(n) <==> last_index_of(s, n) < s.len(),
    decreases s.len(),
{
    if s.len() > 0 {
        lemma_last_index_of(s.drop_last(), n);
        let d = s.drop_last();
        if s.last() != n {
            if d.contains(n) {
                let k = choose|k: int| 0 <= k < d.len() && d[k] == n;
                assert(s[k] == n);
                assert(s[last_index_of(s, n)] == d[last_index_of(d, n)]);
                assert forall|j: int| last_index_of(s, n) < j < s.len() implies s[j] != n by {
                    if j < d.len() {
                        assert(s[j] == d[j]);
                    }
                }
            } else {
                assert forall|j: int| 0 <= j < s.len() implies s[j] != n by {
                    if j < d.len() {
                        assert(s[j] == d[j]);
                    }
                }
            }
        }
    }
}

fn same_string_chars(a: &String, b: &[char]) -> (r: bool)
    ensures
        r == (a@ == b@),
{
    crate::lef::same_chars(chars_of(a.as_str()).as_slice(), b)
}

pub open spec fn names_view(v: Seq<String>) -> Seq<Seq<char>> {
    v.map_values(|s: String| s@)
}

fn index_in(v: &Vec<String>, n: &[char]) -> (r: Option<usize>)
    ensures
        r == (if names_view(v@).contains(n@) { Some(index_of(names_view(v@), n@) as usize) } else { None::<usize> }),
{
    let ghost s = names_view(v@);
    proof {
        lemma_index_of(s, n@);
    }
    let mut i: usize = 0;
    while i < v.len()
        invariant
            i <= v@.len(),
            s == names_view(v@),
            forall|j: int| 0 <= j < i ==> s[j] != n@,
            0 <= index_of(s, n@) <= s.len(),
            forall|j: int| 0 <= j < index_of(s, n@) ==> s[j] != n@,
            index_of(s, n@) < s.len() ==> s[index_of(s, n@)] == n@,
            s.contains(n@) <==> index_of(s, n@) < s.len(),
        decreases v.len() - i,
    {
        if same_string_chars(&v[i], n) {
            assert(s[i as int] == n@);
            assert(index_of(s, n@) <= i) by {
                if index_of(s, n@) > i {
                    assert(s.contains(n@));
                }
            }
            return Some(i);
        }
        i += 1;
    }
    assert(!s.contains(n@)) by {
        if s.contains(n@) {
            assert(s[index_of(s, n@)] == n@);
        }
    }
    None
}

fn last_pad_index(pads: &Vec<(String, String)>, n: &[char]) -> (r: usize)
    ensures
        r == last_index_of(pads@.map_values(|p: (String, String)| p.0@), n@),
{
    let ghost s = pads@.map_values(|p: (String, String)| p.0@);
    proof {
        lemma_last_index_of(s, n@);
    }
    let mut i = pads.len();
    while i > 0
        invariant
            i <= pads@.len(),
            s == pads@.map_values(|p: (String, String)| p.0@),
            forall|j: int| i <= j < s.len() ==> s[j] != n@,
            0 <= last_index_of(s, n@) <= s.len(),
            forall|j: int| last_index_of(s, n@) < j < s.len() ==> s[j] != n@,
            last_index_of(s, n@) < s.len() ==> s[last_index_of(s, n@)] == n@,
            s.contains(n@) <==> last_index_of(s, n@) < s.len(),
        decreases i,
    {
        if same_string_chars(&pads[i - 1].0, n) {
            assert(s[i - 1] == n@);
            return i - 1;
        }
        i -= 1;
    }
    assert(!s.contains(n@));
    pads.len()
}

fn end_of(free: &Vec<String>, pads: &Vec<(String, String)>, n: &String) -> (e: End)
    ensures
        e == spec_end(names_view(free@), pads@.map_values(|p: (String, String)| p.0@), n@),
{
    let c = chars_of(n.as_str());
    match index_in(free, c.as_slice()) {
        Some(i) => End::Free(i),
        None => End::Pad(last_pad_index(pads, c.as_slice())),
    }
}

fn attach(free: &Vec<String>, n: &String) -> (r: Option<usize>)
    ensures
        r == spec_attach(names_view(free@), n@),
{
    let c = chars_of(n.as_str());
    index_in(free, c.as_slice())
}

/// Adds `n` to the free nodes unless it is a pad or already there.
fn see(free: &mut Vec<String>, pads: &Vec<(String, String)>, n: &String)
    ensures
        names_view(final(free)@) == (if pad_list(pads@).contains(n@) || names_view(old(free)@).contains(n@) {
            names_view(old(free)@)
        } else {
            names_view(old(free)@).push(n@)
        }),
{
    let c = chars_of(n.as_str());
    let ghost ps = pad_list(pads@);
    let lp = last_pad_index(pads, c.as_slice());
    proof {
        lemma_last_index_of(ps, n@);
    }
    if lp < pads.len() {
        return;
    }
    if index_in(free, c.as_slice()).is_some() {
        return;
    }
    free.push(n.clone());
}

pub open spec fn pad_list(pads: Seq<(String, String)>) -> Seq<Seq<char>> {
    pads.map_values(|p: (String, String)| p.0@)
}

/// The free nodes and attachments of a network (see `free_of`, `spec_end`,
/// `spec_attach`).
pub fn network(spec: &PdnSpec) -> (net: Network)
    ensures
        names_view(net.free@) == free_of(mentioned(*spec), pad_names(*spec)),
        net.ends@.len() == spec.resistors@.len(),
        forall|i: int|
            0 <= i < spec.resistors@.len() ==> #[trigger] net.ends@[i] == (
                spec_end(names_view(net.free@), pad_names(*spec), spec.resistors@[i].a@),
                spec_end(names_view(net.free@), pad_names(*spec), spec.resistors@[i].b@),
            ),
        net.load_at@.len() == spec.loads@.len(),
        forall|i: int|
            0 <= i < spec.loads@.len() ==> #[trigger] net.load_at@[i] == spec_attach(
                names_view(net.free@),
                spec.loads@[i].0@,
            ),
        net.cap_at@.len() == spec.caps@.len(),
        forall|i: int|
            0 <= i < spec.caps@.len() ==> #[trigger] net.cap_at@[i] == spec_attach(
                names_view(net.free@),
                spec.caps@[i].0@,
            ),
        net.switch_at@.len() == spec.switches@.len(),
        forall|i: int|
            0 <= i < spec.switches@.len() ==> #[trigger] net.switch_at@[i] == spec_attach(
                names_view(net.free@),
                spec.switches@[i].node@,
            ),
{
    let ghost all = mentioned(*spec);
    let ghost ps = pad_names(*spec);
    let ghost rs = spec.resistors@.map_values(|r: Resistor| r@);
    let ghost ln = spec.loads@.map_values(|p: (String, String)| p.0@);
    let ghost cn = spec.caps@.map_values(|p: (String, String)| p.0@);
    let ghost sn = spec.switches@.map_values(|w: Switch| w.node@);
    let mut free: Vec<String> = Vec::new();
    // the names in order: resistor ends, loads, caps, switches
    let mut i: usize = 0;
    assert(rs.take(0) =~= Seq::<crate::pdn::ResistorV>::empty());
    while i < spec.resistors.len()
        invariant
            i <= spec.resistors@.len(),
            rs == spec.resistors@.map_values(|r: Resistor| r@),
            ps == pad_names(*spec),
            names_view(free@) == free_of(res_names(rs.take(i as int)), ps),
        decreases spec.resistors.len() - i,
    {
        let ghost pre = res_names(rs.take(i as int));
        assert(rs[i as int] == spec.resistors@[i as int]@);
        assert(pad_list(spec.pads@) == ps);
        see(&mut free, &spec.pads, &spec.resistors[i].a);
        let ghost mid = pre.push(rs[i as int].a);
        proof {
            assert(mid.drop_last() =~= pre);
            assert(free_of(mid, ps) == (if ps.contains(rs[i as int].a) || free_of(pre, ps).contains(rs[i as int].a) {
                free_of(pre, ps)
            } else {
                free_of(pre, ps).push(rs[i as int].a)
            }));
        }
        see(&mut free, &spec.pads, &spec.resistors[i].b);
        proof {
            let full = mid.push(rs[i as int].b);
            assert(full.drop_last() =~= mid);
            assert(free_of(full, ps) == (if ps.contains(rs[i as int].b) || free_of(mid, ps).contains(rs[i as int].b) {
                free_of(mid, ps)
            } else {
                free_of(mid, ps).push(rs[i as int].b)
            }));
            assert(rs.take(i + 1).drop_last() =~= rs.take(i as int));
            assert(rs.take(i + 1).last() == rs[i as int]);
            assert(res_names(rs.take(i + 1)) == full);
        }
        i += 1;
    }
    assert(rs.take(i as int) =~= rs);
    let ghost base = res_names(rs);
    let ghost names0 = base;
    assert(pad_list(spec.pads@) == ps);
    let mut j: usize = 0;
    assert(base + ln.take(0) =~= base);
    while j < spec.loads.len()
        invariant
            j <= spec.loads@.len(),
            ln == spec.loads@.map_values(|p: (String, String)| p.0@),
            ps == pad_names(*spec),
            pad_list(spec.pads@) == ps,
            names_view(free@) == free_of(base + ln.take(j as int), ps),
        decreases spec.loads.len() - j,
    {
        see(&mut free, &spec.pads, &spec.loads[j].0);
        proof {
            assert((base + ln.take(j + 1)).drop_last() =~= base + ln.take(j as int));
            assert((base + ln.take(j + 1)).last() == ln[j as int]);
        }
        j += 1;
    }
    assert(ln.take(j as int) =~= ln);
    let ghost b2 = base + ln;
    let mut j: usize = 0;
    assert(b2 + cn.take(0) =~= b2);
    while j < spec.caps.len()
        invariant
            j <= spec.caps@.len(),
            cn == spec.caps@.map_values(|p: (String, String)| p.0@),
            ps == pad_names(*spec),
            pad_list(spec.pads@) == ps,
            names_view(free@) == free_of(b2 + cn.take(j as int), ps),
        decreases spec.caps.len() - j,
    {
        see(&mut free, &spec.pads, &spec.caps[j].0);
        proof {
            assert((b2 + cn.take(j + 1)).drop_last() =~= b2 + cn.take(j as int));
            assert((b2 + cn.take(j + 1)).last() == cn[j as int]);
        }
        j += 1;
    }
    assert(cn.take(j as int) =~= cn);
    let ghost b3 = b2 + cn;
    let mut j: usize = 0;
    assert(b3 + sn.take(0) =~= b3);
    while j < spec.switches.len()
        invariant
            j <= spec.switches@.len(),
            sn == spec.switches@.map_values(|w: Switch| w.node@),
            ps == pad_names(*spec),
            pad_list(spec.pads@) == ps,
            names_view(free@) == free_of(b3 + sn.take(j as int), ps),
        decreases spec.switches.len() - j,
    {
        see(&mut free, &spec.pads, &spec.switches[j].node);
        proof {
            assert((b3 + sn.take(j + 1)).drop_last() =~= b3 + sn.take(j as int));
            assert((b3 + sn.take(j + 1)).last() == sn[j as int]);
        }
        j += 1;
    }
    assert(sn.take(j as int) =~= sn);
    assert(b3 + sn =~= all);

    // attachments
    let mut ends: Vec<(End, End)> = Vec::new();
    let mut k: usize = 0;
    while k < spec.resistors.len()
        invariant
            k <= spec.resistors@.len(),
            ends@.len() == k,
            ps == pad_names(*spec),
            forall|t: int|
                0 <= t < k ==> #[trigger] ends@[t] == (
                    spec_end(names_view(free@), ps, spec.resistors@[t].a@),
                    spec_end(names_view(free@), ps, spec.resistors@[t].b@),
                ),
        decreases spec.resistors.len() - k,
    {
        let a = end_of(&free, &spec.pads, &spec.resistors[k].a);
        let b = end_of(&free, &spec.pads, &spec.resistors[k].b);
        ends.push((a, b));
        k += 1;
    }
    let mut load_at: Vec<Option<usize>> = Vec::new();
    let mut k: usize = 0;
    while k < spec.loads.len()
        invariant
            k <= spec.loads@.len(),
            load_at@.len() == k,
            forall|t: int| 0 <= t < k ==> #[trigger] load_at@[t] == spec_attach(names_view(free@), spec.loads@[t].0@),
        decreases spec.loads.len() - k,
    {
        load_at.push(attach(&free, &spec.loads[k].0));
        k += 1;
    }
    let mut cap_at: Vec<Option<usize>> = Vec::new();
    let mut k: usize = 0;
    while k < spec.caps.len()
        invariant
            k <= spec.caps@.len(),
            cap_at@.len() == k,
            forall|t: int| 0 <= t < k ==> #[trigger] cap_at@[t] == spec_attach(names_view(free@), spec.caps@[t].0@),
        decreases spec.caps.len() - k,
    {
        cap_at.push(attach(&free, &spec.caps[k].0));
        k += 1;
    }
    let mut switch_at: Vec<Option<usize>> = Vec::new();
    let mut k: usize = 0;
    while k < spec.switches.len()
        invariant
            k <= spec.switches@.len(),
            switch_at@.len() == k,
            forall|t: int| 0 <= t < k ==> #[trigger] switch_at@[t] == spec_attach(names_view(free@), spec.switches@[t].node@),
        decreases spec.switches.len() - k,
    {
        switch_at.push(attach(&free, &spec.switches[k].node));
        k += 1;
    }
    Network { free, ends, load_at, cap_at, switch_at }
}


/// The free nodes are exactly the mentioned names that are not pads, each once.
pub proof fn lemma_free_nodes(names: Seq<Seq<char>>, pads: Seq<Seq<char>>)
    ensures
        forall|i: int| 0 <= i < free_of(names, pads).len() ==> !pads.contains(#[trigger] free_of(names, pads)[i]),
        forall|i: int, j: int|
            0 <= i < j < free_of(names, pads).len() ==> free_of(names, pads)[i] != free_of(names, pads)[j],
        forall|n: Seq<char>| names.contains(n) && !pads.contains(n) ==> #[trigger] free_of(names, pads).contains(n),
        forall|i: int| 0 <= i < free_of(names, pads).len() ==> names.contains(#[trigger] free_of(names, pads)[i]),
    decreases names.len(),
{
    if names.len() > 0 {
        let d = names.drop_last();
        lemma_free_nodes(d, pads);
        let r = free_of(d, pads);
        let n = names.last();
        let f = free_of(names, pads);
        assert forall|m: Seq<char>| names.contains(m) && !pads.contains(m) implies #[trigger] f.contains(m) by {
            let k = choose|k: int| 0 <= k < names.len() && names[k] == m;
            if k < d.len() {
                assert(d[k] == m);
                assert(d.contains(m));
                assert(free_of(d, pads).contains(m));
                let q = choose|q: int| 0 <= q < r.len() && r[q] == m;
                if !(pads.contains(n) || r.contains(n)) {
                    assert(f[q] == m);
                } else {
                    assert(f == r);
                }
            } else {
                if r.contains(n) {
                } else {
                    assert(f[r.len() as int] == n);
                }
            }
        }
        assert forall|i: int| 0 <= i < f.len() implies names.contains(#[trigger] f[i]) by {
            if i < r.len() {
                assert(f[i] == r[i]);
                let k = choose|k: int| 0 <= k < d.len() && d[k] == r[i];
                assert(names[k] == r[i]);
            } else {
                assert(f[i] == n);
                assert(names[names.len() - 1] == n);
            }
        }
        assert forall|i: int| 0 <= i < f.len() implies !pads.contains(#[trigger] f[i]) by {
            if i < r.len() {
                assert(f[i] == r[i]);
            }
        }
        assert forall|i: int, j: int| 0 <= i < j < f.len() implies f[i] != f[j] by {
            if j < r.len() {
                assert(f[i] == r[i] && f[j] == r[j]);
            } else {
                assert(f[j] == n);
                assert(f[i] == r[i]);
                assert(r.contains(r[i]));
            }
        }
    }
}

/// A resistor end, a load, a capacitance or a switching event attaches to its own
/// node: a free end is the unknown whose name it is (the first and only such), a pad
/// end is the last pad of that name (lists that fit in memory).
pub proof fn lemma_attachments_name_their_node(free: Seq<Seq<char>>, pads: Seq<Seq<char>>, n: Seq<char>)
    requires
        free.len() <= usize::MAX,
        pads.len() <= usize::MAX,
    ensures
        spec_end(free, pads, n) matches End::Free(i) ==> {
            &&& free.contains(n)
            &&& i < free.len()
            &&& free[i as int] == n
            &&& forall|j: int| 0 <= j < i ==> free[j] != n
        },
        spec_end(free, pads, n) matches End::Pad(i) ==> {
            &&& !free.contains(n)
            &&& pads.contains(n) ==> i < pads.len() && pads[i as int] == n && forall|j: int|
                i < j < pads.len() ==> pads[j] != n
        },
        spec_attach(free, n) matches Some(i) ==> i < free.len() && free[i as int] == n,
        spec_attach(free, n) is None <==> !free.contains(n),
{
    lemma_index_of(free, n);
    lemma_last_index_of(pads, n);
}

} // verus!
