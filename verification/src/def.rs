//! DEF reader for PDN extraction: the special-net power-grid geometry.
//!
//! Reads `UNITS DISTANCE MICRONS <dbu>` and the `SPECIALNETS` section: each net's
//! `+ ROUTED`/`NEW <layer> <width>` wires as a polyline of points (in DB units),
//! the via placements along them, and every point the routing names. Co-ordinate
//! shorthand `( * y )` / `( x * )` reuses the previous coordinate; parenthesised
//! groups that are not coordinates (`( PIN VGND )`) are skipped.

use vstd::prelude::*;
use crate::num::{is_number, parse_i64, spec_is_number, spec_parse_i64};
use crate::sections::{
    read_comps, read_pins, read_via_defs, spec_comps, spec_pins, spec_via_defs, via_def_view, Comp, Pin, ViaDef,
};
use crate::text::{chars_of, eq_lit, seqs, spec_words, string_of, trim_end, trim_end_char, words_of};

verus! {

broadcast use {vstd::string::group_string_axioms, crate::text::lemma_map_push};

/// One straight wire piece of a special net; `width_dbu` is its width token (DB units).
#[derive(Debug, Clone)]
pub struct Seg {
    pub layer: String,
    pub width_dbu: String,
    pub x1: i64,
    pub y1: i64,
    pub x2: i64,
    pub y2: i64,
}

/// The routing of one special net: its wires, via locations and named points.
#[derive(Debug, Clone)]
pub struct NetGeom {
    pub name: String,
    pub use_power: bool,
    pub segs: Vec<Seg>,
    pub vias: Vec<(i64, i64)>,
    /// Every coordinate point the routing names, with the layer it was drawn on.
    pub points: Vec<(String, i64, i64)>,
    /// The via placed at each via location, by name, in routing order.
    pub via_names: Vec<(String, i64, i64)>,
}

/// The special nets of a DEF and its database units per micron (a number token),
/// with its placed components, its pins and its via definitions.
#[derive(Debug, Clone)]
pub struct Def {
    pub dbu: String,
    pub nets: Vec<NetGeom>,
    pub comps: Vec<Comp>,
    pub pins: Vec<Pin>,
    pub via_defs: Vec<(String, ViaDef)>,
}

/// A DEF-reading error; the text is the reason.
#[derive(Debug, Clone)]
pub struct DefError(pub String);

pub struct SegV {
    pub layer: Seq<char>,
    pub width_dbu: Seq<char>,
    pub x1: i64,
    pub y1: i64,
    pub x2: i64,
    pub y2: i64,
}

impl View for Seg {
    type V = SegV;

    open spec fn view(&self) -> SegV {
        SegV {
            layer: self.layer@,
            width_dbu: self.width_dbu@,
            x1: self.x1,
            y1: self.y1,
            x2: self.x2,
            y2: self.y2,
        }
    }
}

pub struct NetV {
    pub name: Seq<char>,
    pub use_power: bool,
    pub segs: Seq<SegV>,
    pub vias: Seq<(i64, i64)>,
    pub points: Seq<(Seq<char>, i64, i64)>,
    pub via_names: Seq<(Seq<char>, i64, i64)>,
}

pub open spec fn point_view(p: (String, i64, i64)) -> (Seq<char>, i64, i64) {
    (p.0@, p.1, p.2)
}

impl View for NetGeom {
    type V = NetV;

    open spec fn view(&self) -> NetV {
        NetV {
            name: self.name@,
            use_power: self.use_power,
            segs: self.segs@.map_values(|s: Seg| s@),
            vias: self.vias@,
            points: self.points@.map_values(|p: (String, i64, i64)| point_view(p)),
            via_names: self.via_names@.map_values(|p: (String, i64, i64)| point_view(p)),
        }
    }
}

pub open spec fn nets_view(v: Seq<NetGeom>) -> Seq<NetV> {
    v.map_values(|n: NetGeom| n@)
}

/// Qualifier keywords that may follow a wire and are not via names.
pub open spec fn spec_is_qualifier(t: Seq<char>) -> bool {
    ||| t == "SHAPE"@ || t == "STRIPE"@ || t == "FOLLOWPIN"@ || t == "STYLE"@ || t == "FIXED"@
    ||| t == "COVER"@ || t == "POWER"@ || t == "GROUND"@ || t == "RECT"@ || t == "PIN"@
    ||| t == "MASK"@ || t == "RING"@ || t == "BLOCKWIRE"@ || t == "PADRING"@ || t == "BLOCKAGEWIRE"@
}

fn is_qualifier_chars(t: &[char]) -> (b: bool)
    ensures
        b == spec_is_qualifier(t@),
{
    eq_lit(t, "SHAPE") || eq_lit(t, "STRIPE") || eq_lit(t, "FOLLOWPIN") || eq_lit(t, "STYLE")
        || eq_lit(t, "FIXED") || eq_lit(t, "COVER") || eq_lit(t, "POWER") || eq_lit(t, "GROUND")
        || eq_lit(t, "RECT") || eq_lit(t, "PIN") || eq_lit(t, "MASK") || eq_lit(t, "RING")
        || eq_lit(t, "BLOCKWIRE") || eq_lit(t, "PADRING") || eq_lit(t, "BLOCKAGEWIRE")
}

/// Whether a word is a routing qualifier keyword rather than a via name.
pub fn is_qualifier(t: &str) -> (b: bool)
    ensures
        b == spec_is_qualifier(t@),
{
    let c = chars_of(t);
    is_qualifier_chars(c.as_slice())
}

/// A name at a point.
pub open spec fn named_at(t: Seq<char>, p: (i64, i64)) -> (Seq<char>, i64, i64) {
    let (x, y) = p;
    (t, x, y)
}

/// The state of the special-net reader.
pub struct SnState {
    pub nets: Seq<NetV>,
    pub cur: Option<NetV>,
    pub layer: Seq<char>,
    pub width: Seq<char>,
    pub last: Option<(i64, i64)>,
}

pub open spec fn tok_or(body: Seq<Seq<char>>, i: int, dflt: Seq<char>) -> Seq<char> {
    if 0 <= i < body.len() {
        body[i]
    } else {
        dflt
    }
}

/// Index of the first `)` at or after `from`, or the length.
pub open spec fn close_paren(body: Seq<Seq<char>>, from: int) -> int
    decreases body.len() - from,
{
    if from >= body.len() {
        body.len() as int
    } else if body[from] == ")"@ {
        from
    } else {
        close_paren(body, from + 1)
    }
}

pub open spec fn coord_ok(t: Seq<char>) -> bool {
    t == "*"@ || spec_parse_i64(t) is Some
}

pub open spec fn coord_val(t: Seq<char>, prev: i64) -> i64 {
    if t == "*"@ {
        prev
    } else {
        match spec_parse_i64(t) {
            Some(v) => v,
            None => 0,
        }
    }
}

pub open spec fn close_net(st: SnState) -> Seq<NetV> {
    match st.cur {
        Some(n) => st.nets.push(n),
        None => st.nets,
    }
}

pub open spec fn is_ascii_alpha(c: char) -> bool {
    ('a' <= c && c <= 'z') || ('A' <= c && c <= 'Z')
}

/// One step of the reader at token `i`: the next index and the new state.
pub open spec fn sn_step(body: Seq<Seq<char>>, i: int, st: SnState) -> (int, SnState) {
    let t = body[i];
    if t == "-"@ {
        let n = NetV {
            name: tok_or(body, i + 1, seq![]),
            use_power: false,
            segs: seq![],
            vias: seq![],
            points: seq![],
            via_names: seq![],
        };
        (i + 2, SnState { nets: close_net(st), cur: Some(n), last: None, ..st })
    } else if t == ";"@ {
        (i + 1, SnState { last: None, ..st })
    } else if t == "USE"@ {
        if tok_or(body, i + 1, seq![]) == "POWER"@ && st.cur is Some {
            (i + 2, SnState { cur: Some(NetV { use_power: true, ..st.cur->0 }), ..st })
        } else {
            (i + 2, st)
        }
    } else if t == "ROUTED"@ || t == "NEW"@ {
        let w = tok_or(body, i + 2, seq![]);
        (
            i + 3,
            SnState {
                layer: tok_or(body, i + 1, seq![]),
                width: if spec_is_number(w) { w } else { "0.0"@ },
                last: None,
                ..st
            },
        )
    } else if t == "("@ {
        let xr = tok_or(body, i + 1, "0"@);
        let yr = tok_or(body, i + 2, "0"@);
        let next = close_paren(body, i + 1) + 1;
        if !coord_ok(xr) || !coord_ok(yr) {
            (next, st)
        } else {
            let prev = match st.last { Some(p) => p, None => (0i64, 0i64) };
            let x = coord_val(xr, prev.0);
            let y = coord_val(yr, prev.1);
            let cur = match st.cur {
                Some(n) => {
                    let n2 = NetV { points: n.points.push((st.layer, x, y)), ..n };
                    match st.last {
                        Some(p) => if p.0 != x || p.1 != y {
                            Some(NetV {
                                segs: n2.segs.push(
                                    SegV { layer: st.layer, width_dbu: st.width, x1: p.0, y1: p.1, x2: x, y2: y },
                                ),
                                ..n2
                            })
                        } else {
                            Some(n2)
                        },
                        None => Some(n2),
                    }
                },
                None => None,
            };
            (next, SnState { cur, last: Some((x, y)), ..st })
        }
    } else if t == "+"@ {
        (i + 1, st)
    } else {
        if t.len() > 0 && is_ascii_alpha(t[0]) && st.cur is Some && st.last is Some
            && !spec_is_qualifier(t) {
            (
                i + 1,
                SnState {
                    cur: Some(
                        NetV {
                            vias: st.cur->0.vias.push(st.last->0),
                            via_names: st.cur->0.via_names.push(named_at(t, st.last->0)),
                            ..st.cur->0
                        },
                    ),
                    ..st
                },
            )
        } else {
            (i + 1, st)
        }
    }
}

/// The nets read from token `i` on, in state `st`.
pub open spec fn sn_run(body: Seq<Seq<char>>, i: int, st: SnState) -> Seq<NetV>
    decreases body.len() - i,
{
    if i >= body.len() || i < 0 {
        close_net(st)
    } else {
        let (j, st2) = sn_step(body, i, st);
        if j <= i || j >= body.len() {
            close_net(st2)
        } else {
            sn_run(body, j, st2)
        }
    }
}

pub open spec fn sn_init() -> SnState {
    SnState { nets: seq![], cur: None, layer: seq![], width: "0.0"@, last: None }
}

/// The special nets in the token stream of a `SPECIALNETS` section.
pub open spec fn spec_specialnets(body: Seq<Seq<char>>) -> Seq<NetV> {
    sn_run(body, 0, sn_init())
}


struct SnExec {
    nets: Vec<NetGeom>,
    cur: Option<NetGeom>,
    layer: String,
    width: String,
    last: Option<(i64, i64)>,
}

pub open spec fn cur_net_view(c: Option<NetGeom>) -> Option<NetV> {
    match c {
        Some(n) => Some(n@),
        None => None,
    }
}

impl View for SnExec {
    type V = SnState;

    closed spec fn view(&self) -> SnState {
        SnState {
            nets: nets_view(self.nets@),
            cur: cur_net_view(self.cur),
            layer: self.layer@,
            width: self.width@,
            last: self.last,
        }
    }
}

fn tok_or_exec(body: &[Vec<char>], i: usize, k: usize, dflt: &str) -> (r: Vec<char>)
    requires
        i <= body@.len(),
    ensures
        r@ == tok_or(seqs(body@), i + k, dflt@),
{
    if k < body.len() - i {
        body[i + k].clone()
    } else {
        chars_of(dflt)
    }
}

fn close_paren_exec(body: &[Vec<char>], from: usize) -> (j: usize)
    requires
        from <= body@.len(),
    ensures
        j == close_paren(seqs(body@), from as int),
        from <= j <= body@.len(),
{
    let ghost b = seqs(body@);
    let mut j = from;
    while j < body.len() && !eq_lit(body[j].as_slice(), ")")
        invariant
            from <= j <= body@.len(),
            b == seqs(body@),
            close_paren(b, from as int) == close_paren(b, j as int),
        decreases body.len() - j,
    {
        j += 1;
    }
    j
}

fn coord_ok_exec(t: &Vec<char>) -> (b: bool)
    ensures
        b == coord_ok(t@),
{
    eq_lit(t.as_slice(), "*") || parse_i64(t.as_slice()).is_some()
}

fn coord_val_exec(t: &Vec<char>, prev: i64) -> (v: i64)
    ensures
        v == coord_val(t@, prev),
{
    if eq_lit(t.as_slice(), "*") {
        prev
    } else {
        match parse_i64(t.as_slice()) {
            Some(v) => v,
            None => 0,
        }
    }
}

impl SnExec {
    fn close(&mut self)
        ensures
            nets_view(final(self).nets@) == close_net(old(self)@),
            final(self).cur is None,
            final(self).layer == old(self).layer,
            final(self).width == old(self).width,
            final(self).last == old(self).last,
    {
        let c = self.cur.take();
        match c {
            Some(n) => self.nets.push(n),
            None => {},
        }
    }

    /// One reader step at token `i`; returns the next index, capped at the length.
    fn step(&mut self, body: &[Vec<char>], i: usize) -> (j: usize)
        requires
            i < body@.len(),
        ensures
            i < j <= body@.len(),
            sn_run(seqs(body@), i as int, old(self)@) == sn_run(seqs(body@), j as int, final(self)@),
    {
        let ghost b = seqs(body@);
        let ghost st0 = self@;
        let ghost (sj, sst) = sn_step(b, i as int, st0);
        proof {
            reveal_strlit("");
            assert(""@ =~= Seq::<char>::empty());
        }
        let n = body.len();
        let t = body[i].as_slice();
        assert(t@ == b[i as int]);
        let j: usize;
        if eq_lit(t, "-") {
            let name = tok_or_exec(body, i, 1, "");
            self.close();
            self.cur = Some(
                NetGeom {
                    name: string_of(name.as_slice()),
                    use_power: false,
                    segs: Vec::new(),
                    vias: Vec::new(),
                    points: Vec::new(),
                    via_names: Vec::new(),
                },
            );
            self.last = None;
            j = if n - i >= 2 { i + 2 } else { n };
            proof {
                assert(self@.cur->0.segs =~= Seq::<SegV>::empty());
                assert(self@.cur->0.points =~= Seq::<(Seq<char>, i64, i64)>::empty());
                assert(self@.cur->0.vias =~= Seq::<(i64, i64)>::empty());
                assert(self@.cur->0.via_names =~= Seq::<(Seq<char>, i64, i64)>::empty());
                assert(self@ == sst);
            }
        } else if eq_lit(t, ";") {
            self.last = None;
            j = i + 1;
            assert(self@ == sst);
        } else if eq_lit(t, "USE") {
            let nxt = tok_or_exec(body, i, 1, "");
            if eq_lit(nxt.as_slice(), "POWER") && self.cur.is_some() {
                let mut c = self.cur.take().unwrap();
                c.use_power = true;
                self.cur = Some(c);
            }
            j = if n - i >= 2 { i + 2 } else { n };
            assert(self@ == sst);
        } else if eq_lit(t, "ROUTED") || eq_lit(t, "NEW") {
            let l = tok_or_exec(body, i, 1, "");
            let w = tok_or_exec(body, i, 2, "");
            self.layer = string_of(l.as_slice());
            self.width = if is_number(w.as_slice()) { string_of(w.as_slice()) } else { "0.0".to_string() };
            self.last = None;
            j = if n - i >= 3 { i + 3 } else { n };
            assert(self@ == sst);
        } else if eq_lit(t, "(") {
            let xr = tok_or_exec(body, i, 1, "0");
            let yr = tok_or_exec(body, i, 2, "0");
            let c = close_paren_exec(body, i + 1);
            j = if c < n { c + 1 } else { n };
            if coord_ok_exec(&xr) && coord_ok_exec(&yr) {
                let prev = match self.last { Some(p) => p, None => (0i64, 0i64) };
                let x = coord_val_exec(&xr, prev.0);
                let y = coord_val_exec(&yr, prev.1);
                if self.cur.is_some() {
                    let mut nt = self.cur.take().unwrap();
                    nt.points.push((self.layer.clone(), x, y));
                    match self.last {
                        Some(p) => {
                            if p.0 != x || p.1 != y {
                                nt.segs.push(
                                    Seg {
                                        layer: self.layer.clone(),
                                        width_dbu: self.width.clone(),
                                        x1: p.0,
                                        y1: p.1,
                                        x2: x,
                                        y2: y,
                                    },
                                );
                            }
                        },
                        None => {},
                    }
                    self.cur = Some(nt);
                }
                self.last = Some((x, y));
            }
            assert(self@ == sst);
        } else if eq_lit(t, "+") {
            j = i + 1;
        } else {
            if t.len() > 0 && (('a' <= t[0] && t[0] <= 'z') || ('A' <= t[0] && t[0] <= 'Z'))
                && self.cur.is_some() && self.last.is_some() && !is_qualifier_chars(t) {
                let p = self.last.unwrap();
                let mut nt = self.cur.take().unwrap();
                nt.vias.push(p);
                nt.via_names.push((string_of(t), p.0, p.1));
                self.cur = Some(nt);
            }
            j = i + 1;
            assert(self@ == sst);
        }
        proof {
            assert(sn_run(b, i as int, st0) == sn_run(b, j as int, self@)) by {
                if sj >= b.len() {
                    assert(j == b.len());
                }
            }
        }
        j
    }
}

/// Reads the token stream of a `SPECIALNETS` section into nets (see `spec_specialnets`).
pub fn parse_specialnets(body: &[Vec<char>]) -> (nets: Vec<NetGeom>)
    ensures
        nets_view(nets@) == spec_specialnets(seqs(body@)),
{
    let ghost b = seqs(body@);
    let mut st = SnExec { nets: Vec::new(), cur: None, layer: String::new(), width: "0.0".to_string(), last: None };
    assert(st@ == sn_init()) by {
        assert(st@.nets =~= sn_init().nets);
    }
    let mut i: usize = 0;
    while i < body.len()
        invariant
            i <= body@.len(),
            b == seqs(body@),
            spec_specialnets(b) == sn_run(b, i as int, st@),
        decreases body.len() - i,
    {
        i = st.step(body, i);
    }
    st.close();
    st.nets
}


/// Whether the window of four words at `w` reads `UNITS DISTANCE MICRONS <n>`.
pub open spec fn units_at(toks: Seq<Seq<char>>, w: int) -> bool {
    toks[w] == "UNITS"@ && toks[w + 1] == "DISTANCE"@ && toks[w + 2] == "MICRONS"@
}

/// The database units set by the last `UNITS DISTANCE MICRONS` among the windows
/// starting before `k`: its value without trailing `;` when that is a number, else
/// `1000.0` (also when there is none).
pub open spec fn dbu_before(toks: Seq<Seq<char>>, k: int) -> Seq<char>
    decreases k,
{
    if k <= 0 {
        "1000.0"@
    } else if units_at(toks, k - 1) {
        let v = trim_end_char(toks[k + 2], ';');
        if spec_is_number(v) { v } else { "1000.0"@ }
    } else {
        dbu_before(toks, k - 1)
    }
}

pub open spec fn spec_dbu(toks: Seq<Seq<char>>) -> Seq<char> {
    if toks.len() >= 4 {
        dbu_before(toks, toks.len() - 3)
    } else {
        "1000.0"@
    }
}

/// Index of the first word equal to `w` at or after `from`, or the length.
pub open spec fn find_word(toks: Seq<Seq<char>>, w: Seq<char>, from: int) -> int
    decreases toks.len() - from,
{
    if from >= toks.len() {
        toks.len() as int
    } else if toks[from] == w {
        from
    } else {
        find_word(toks, w, from + 1)
    }
}

/// Index of the first `END SPECIALNETS` at or after `from`, or the length.
pub open spec fn find_end(toks: Seq<Seq<char>>, from: int) -> int
    decreases toks.len() - from,
{
    if from >= toks.len() {
        toks.len() as int
    } else if toks[from] == "END"@ && from + 1 < toks.len() && toks[from + 1] == "SPECIALNETS"@ {
        from
    } else {
        find_end(toks, from + 1)
    }
}

/// What reading DEF text gives: the database units and nets, or the reason it fails.
pub open spec fn spec_def(text: Seq<char>) -> Result<(Seq<char>, Seq<NetV>), Seq<char>> {
    let toks = spec_words(text);
    let s = find_word(toks, "SPECIALNETS"@, 0);
    if s >= toks.len() {
        Err("no SPECIALNETS section"@)
    } else {
        let e = find_end(toks, s);
        let nets = spec_specialnets(toks.subrange(s + 1, e));
        if nets.len() == 0 {
            Err("no special nets parsed"@)
        } else {
            Ok((spec_dbu(toks), nets))
        }
    }
}

pub open spec fn is_power_name(n: Seq<char>) -> bool {
    n == "VPWR"@ || n == "VDD"@ || n == "VCCD"@ || n == "VCC"@ || n == "VDDP"@
}

/// Index of the first net with `USE POWER`, or the count.
pub open spec fn first_use_power(nets: Seq<NetV>) -> int
    decreases nets.len(),
{
    if nets.len() == 0 {
        0
    } else if nets[0].use_power {
        0
    } else {
        1 + first_use_power(nets.drop_first())
    }
}

/// Index of the first net with a supply name, or the count.
pub open spec fn first_power_named(nets: Seq<NetV>) -> int
    decreases nets.len(),
{
    if nets.len() == 0 {
        0
    } else if is_power_name(nets[0].name) {
        0
    } else {
        1 + first_power_named(nets.drop_first())
    }
}

/// The net to analyze: the first with `USE POWER`, else the first with a supply name,
/// else the first.
pub open spec fn spec_power_net(nets: Seq<NetV>) -> Option<int> {
    if first_use_power(nets) < nets.len() {
        Some(first_use_power(nets))
    } else if first_power_named(nets) < nets.len() {
        Some(first_power_named(nets))
    } else if nets.len() > 0 {
        Some(0)
    } else {
        None
    }
}

proof fn lemma_first_use_power(nets: Seq<NetV>)
    ensures
        0 <= first_use_power(nets) <= nets.len(),
        forall|j: int| 0 <= j < first_use_power(nets) ==> !nets[j].use_power,
        first_use_power(nets) < nets.len() ==> nets[first_use_power(nets)].use_power,
    decreases nets.len(),
{
    if nets.len() > 0 {
        lemma_first_use_power(nets.drop_first());
        assert forall|j: int| 0 <= j < first_use_power(nets) implies !nets[j].use_power by {
            if j > 0 {
                assert(nets[j] == nets.drop_first()[j - 1]);
            }
        }
    }
}

proof fn lemma_first_power_named(nets: Seq<NetV>)
    ensures
        0 <= first_power_named(nets) <= nets.len(),
        forall|j: int| 0 <= j < first_power_named(nets) ==> !is_power_name(nets[j].name),
        first_power_named(nets) < nets.len() ==> is_power_name(nets[first_power_named(nets)].name),
    decreases nets.len(),
{
    if nets.len() > 0 {
        lemma_first_power_named(nets.drop_first());
        assert forall|j: int| 0 <= j < first_power_named(nets) implies !is_power_name(nets[j].name) by {
            if j > 0 {
                assert(nets[j] == nets.drop_first()[j - 1]);
            }
        }
    }
}

proof fn lemma_first_exact_use_power(nets: Seq<NetV>, k: int)
    requires
        0 <= k <= nets.len(),
        forall|j: int| 0 <= j < k ==> !nets[j].use_power,
        k < nets.len() ==> nets[k].use_power,
    ensures
        first_use_power(nets) == k,
{
    lemma_first_use_power(nets);
}

proof fn lemma_first_exact_named(nets: Seq<NetV>, k: int)
    requires
        0 <= k <= nets.len(),
        forall|j: int| 0 <= j < k ==> !is_power_name(nets[j].name),
        k < nets.len() ==> is_power_name(nets[k].name),
    ensures
        first_power_named(nets) == k,
{
    lemma_first_power_named(nets);
}

fn is_power_name_exec(n: &String) -> (b: bool)
    ensures
        b == is_power_name(n@),
{
    let c = chars_of(n.as_str());
    let c = c.as_slice();
    eq_lit(c, "VPWR") || eq_lit(c, "VDD") || eq_lit(c, "VCCD") || eq_lit(c, "VCC") || eq_lit(c, "VDDP")
}

/// Every wire piece of a net joins two different points and has a number token as
/// its width.
pub open spec fn segs_proper(n: NetV) -> bool {
    forall|j: int|
        0 <= j < n.segs.len() ==> ((#[trigger] n.segs[j]).x1 != n.segs[j].x2 || n.segs[j].y1 != n.segs[j].y2)
            && spec_is_number(n.segs[j].width_dbu)
}

pub open spec fn state_proper(st: SnState) -> bool {
    &&& forall|k: int| 0 <= k < st.nets.len() ==> segs_proper(#[trigger] st.nets[k])
    &&& (st.cur matches Some(n) ==> segs_proper(n))
    &&& spec_is_number(st.width)
}

proof fn lemma_zero_width_is_number()
    ensures
        spec_is_number("0.0"@),
{
    reveal_strlit("0.0");
    crate::num::lemma_plain_decimal_is_number(seq!['0'], seq!['0']);
    assert(seq!['0'] + seq!['.'] + seq!['0'] =~= "0.0"@);
}

proof fn lemma_step_proper(body: Seq<Seq<char>>, i: int, st: SnState)
    requires
        0 <= i < body.len(),
        state_proper(st),
    ensures
        state_proper(sn_step(body, i, st).1),
{
    let (j, st2) = sn_step(body, i, st);
    lemma_zero_width_is_number();
    assert forall|k: int| 0 <= k < close_net(st).len() implies segs_proper(#[trigger] close_net(st)[k]) by {
        if k < st.nets.len() {
            assert(close_net(st)[k] == st.nets[k]);
        }
    }
    if let Some(n) = st2.cur {
        assert forall|q: int| 0 <= q < n.segs.len() implies ((#[trigger] n.segs[q]).x1 != n.segs[q].x2 || n.segs[q].y1
            != n.segs[q].y2) && spec_is_number(n.segs[q].width_dbu) by {
            if let Some(c) = st.cur {
                if q < c.segs.len() {
                    assert(n.segs[q] == c.segs[q]);
                }
            }
        }
    }
}

proof fn lemma_close_proper(st: SnState)
    requires
        state_proper(st),
    ensures
        forall|k: int| 0 <= k < close_net(st).len() ==> segs_proper(#[trigger] close_net(st)[k]),
{
    assert forall|k: int| 0 <= k < close_net(st).len() implies segs_proper(#[trigger] close_net(st)[k]) by {
        if k < st.nets.len() {
            assert(close_net(st)[k] == st.nets[k]);
        } else {
            assert(close_net(st)[k] == st.cur->0);
        }
    }
}

proof fn lemma_run_proper(body: Seq<Seq<char>>, i: int, st: SnState)
    requires
        state_proper(st),
    ensures
        forall|k: int| 0 <= k < sn_run(body, i, st).len() ==> segs_proper(#[trigger] sn_run(body, i, st)[k]),
    decreases body.len() - i,
{
    if i >= body.len() || i < 0 {
        lemma_close_proper(st);
        assert(sn_run(body, i, st) == close_net(st));
    } else {
        lemma_step_proper(body, i, st);
        let (j, st2) = sn_step(body, i, st);
        if j <= i || j >= body.len() {
            lemma_close_proper(st2);
            assert(sn_run(body, i, st) == close_net(st2));
        } else {
            lemma_run_proper(body, j, st2);
            assert(sn_run(body, i, st) == sn_run(body, j, st2));
        }
    }
}

proof fn lemma_dbu_before_is_number(toks: Seq<Seq<char>>, k: int)
    ensures
        spec_is_number(dbu_before(toks, k)),
    decreases k,
{
    if k > 0 && !units_at(toks, k - 1) {
        lemma_dbu_before_is_number(toks, k - 1);
    }
    reveal_strlit("1000.0");
    crate::num::lemma_plain_decimal_is_number(seq!['1', '0', '0', '0'], seq!['0']);
    assert(seq!['1', '0', '0', '0'] + seq!['.'] + seq!['0'] =~= "1000.0"@);
}

proof fn lemma_dbu_before_skips(toks: Seq<Seq<char>>, k: int, w: int)
    requires
        0 <= w < k,
        forall|j: int| w < j < k ==> !units_at(toks, j),
    ensures
        dbu_before(toks, k) == dbu_before(toks, w + 1),
    decreases k,
{
    if k > w + 1 {
        lemma_dbu_before_skips(toks, k - 1, w);
    }
}

proof fn lemma_dbu_before_none(toks: Seq<Seq<char>>, k: int)
    requires
        forall|j: int| 0 <= j < k ==> !units_at(toks, j),
    ensures
        dbu_before(toks, k) == "1000.0"@,
    decreases k,
{
    if k > 0 {
        lemma_dbu_before_none(toks, k - 1);
    }
}

/// The database units are those of the last `UNITS DISTANCE MICRONS <n>` statement
/// (`n` without a trailing `;`, when that is a number), and `1000.0` when the text has
/// none.
pub proof fn lemma_dbu_is_the_last_units_statement(toks: Seq<Seq<char>>, w: int)
    ensures
        (0 <= w && w + 3 < toks.len() && units_at(toks, w) && spec_is_number(trim_end_char(toks[w + 3], ';'))
            && forall|j: int| w < j && j + 3 < toks.len() ==> !units_at(toks, j)) ==> spec_dbu(toks)
            == trim_end_char(toks[w + 3], ';'),
        (forall|j: int| 0 <= j && j + 3 < toks.len() ==> !units_at(toks, j)) ==> spec_dbu(toks) == "1000.0"@,
{
    if 0 <= w && w + 3 < toks.len() && units_at(toks, w) && spec_is_number(trim_end_char(toks[w + 3], ';'))
        && forall|j: int| w < j && j + 3 < toks.len() ==> !units_at(toks, j) {
        lemma_dbu_before_skips(toks, toks.len() - 3, w);
    }
    if toks.len() >= 4 && forall|j: int| 0 <= j && j + 3 < toks.len() ==> !units_at(toks, j) {
        lemma_dbu_before_none(toks, toks.len() - 3);
    }
}

/// A DEF reading never yields a wire piece whose two ends coincide, and its database
/// units and every wire width are number tokens.
pub proof fn lemma_def_segments_are_proper(text: Seq<char>)
    ensures
        spec_def(text) matches Ok((dbu, nets)) ==> {
            &&& spec_is_number(dbu)
            &&& forall|k: int| 0 <= k < nets.len() ==> segs_proper(#[trigger] nets[k])
        },
{
    let toks = spec_words(text);
    let s = find_word(toks, "SPECIALNETS"@, 0);
    lemma_zero_width_is_number();
    if toks.len() >= 4 {
        lemma_dbu_before_is_number(toks, toks.len() - 3);
    } else {
        lemma_dbu_before_is_number(toks, 0);
    }
    if s < toks.len() {
        let e = find_end(toks, s);
        lemma_run_proper(toks.subrange(s + 1, e), 0, sn_init());
    }
}

/// A wire statement `ROUTED <layer> <width>` or `NEW <layer> <width>` sets the layer
/// and width that the following points are drawn with: the width is the number
/// written there, `0.0` when it is not a number.
pub proof fn lemma_wire_statement_sets_layer_and_width(body: Seq<Seq<char>>, i: int, st: SnState)
    requires
        0 <= i < body.len(),
        body[i] == "ROUTED"@ || body[i] == "NEW"@,
    ensures
        sn_step(body, i, st).1.layer == tok_or(body, i + 1, seq![]),
        (i + 2 < body.len() && spec_is_number(body[i + 2])) ==> sn_step(body, i, st).1.width == body[i + 2],
        !(i + 2 < body.len() && spec_is_number(body[i + 2])) ==> sn_step(body, i, st).1.width == "0.0"@,
{
    reveal_strlit("-");
    reveal_strlit(";");
    reveal_strlit("USE");
    reveal_strlit("ROUTED");
    reveal_strlit("NEW");
    assert("-"@.len() == 1 && ";"@.len() == 1 && "USE"@.len() == 3 && "ROUTED"@.len() == 6 && "NEW"@.len() == 3);
    assert("USE"@[0] == 'U' && "NEW"@[0] == 'N');
    if !(i + 2 < body.len()) {
        assert(!spec_is_number(seq![])) by {
            assert(crate::num::unsigned_part(Seq::<char>::empty()) =~= Seq::<char>::empty());
        }
    }
}

/// Any other token leaves the layer and width as they were, and a point appends at
/// most one wire piece, drawn with the current layer and width: every piece of a net
/// carries the layer and width of the wire statement it was drawn under.
pub proof fn lemma_points_draw_with_the_current_layer_and_width(body: Seq<Seq<char>>, i: int, st: SnState)
    requires
        0 <= i < body.len(),
        body[i] != "ROUTED"@ && body[i] != "NEW"@,
        body[i] != "-"@,
    ensures
        sn_step(body, i, st).1.layer == st.layer,
        sn_step(body, i, st).1.width == st.width,
        st.cur matches Some(a) ==> (sn_step(body, i, st).1.cur matches Some(b) && {
            &&& a.segs.len() <= b.segs.len() <= a.segs.len() + 1
            &&& b.segs.take(a.segs.len() as int) == a.segs
            &&& forall|j: int|
                a.segs.len() <= j < b.segs.len() ==> (#[trigger] b.segs[j]).layer == st.layer && b.segs[j].width_dbu
                    == st.width
        }),
{
    let st2 = sn_step(body, i, st).1;
    if let Some(a) = st.cur {
        let b = st2.cur->0;
        assert(b.segs.take(a.segs.len() as int) =~= a.segs);
    }
}

/// A point `( x y )` is read in order, first `x` then `y` (`*` reusing the previous
/// point's coordinate), becomes the last point, and is recorded on the current layer;
/// when it differs from the previous point it adds the wire piece from that point to
/// this one.
pub proof fn lemma_points_are_read_x_then_y(body: Seq<Seq<char>>, i: int, st: SnState)
    requires
        0 <= i,
        i + 2 < body.len(),
        body[i] == "("@,
        coord_ok(body[i + 1]),
        coord_ok(body[i + 2]),
        st.cur is Some,
    ensures
        ({
            let prev = match st.last { Some(p) => p, None => (0i64, 0i64) };
            let x = if body[i + 1] == "*"@ { prev.0 } else { spec_parse_i64(body[i + 1])->0 };
            let y = if body[i + 2] == "*"@ { prev.1 } else { spec_parse_i64(body[i + 2])->0 };
            let r = sn_step(body, i, st).1;
            let a = st.cur->0;
            let b = r.cur->0;
            &&& r.last == Some((x, y))
            &&& r.cur is Some
            &&& b.points == a.points.push((st.layer, x, y))
            &&& (st.last is Some && (prev.0 != x || prev.1 != y)) ==> b.segs == a.segs.push(
                SegV { layer: st.layer, width_dbu: st.width, x1: prev.0, y1: prev.1, x2: x, y2: y },
            )
            &&& !(st.last is Some && (prev.0 != x || prev.1 != y)) ==> b.segs == a.segs
        }),
{
    reveal_strlit("(");
    reveal_strlit("-");
    reveal_strlit(";");
    reveal_strlit("USE");
    reveal_strlit("ROUTED");
    reveal_strlit("NEW");
    assert("("@.len() == 1 && "-"@.len() == 1 && ";"@.len() == 1 && "USE"@.len() == 3);
    assert("ROUTED"@.len() == 6 && "NEW"@.len() == 3);
    assert("("@[0] == '(' && "-"@[0] == '-' && ";"@[0] == ';');
}

/// `- <name>` closes the open net, appending it to the nets read, and opens net `name`
/// with no power mark, wires, vias or points; `USE POWER` marks the open net as a
/// power net and changes nothing else; a via name written after a point records a via
/// of that name at that point, and leaves the net's wires and points as they were.
pub proof fn lemma_net_statements(body: Seq<Seq<char>>, i: int, st: SnState)
    requires
        0 <= i < body.len(),
    ensures
        body[i] == "-"@ ==> ({
            let r = sn_step(body, i, st).1;
            &&& r.nets == close_net(st)
            &&& r.cur == Some(
                NetV {
                    name: tok_or(body, i + 1, seq![]),
                    use_power: false,
                    segs: seq![],
                    vias: seq![],
                    points: seq![],
                    via_names: seq![],
                },
            )
            &&& r.last is None
        }),
        (body[i] == "USE"@ && i + 1 < body.len() && body[i + 1] == "POWER"@ && st.cur is Some) ==> sn_step(
            body,
            i,
            st,
        ).1 == (SnState { cur: Some(NetV { use_power: true, ..st.cur->0 }), ..st }),
        (body[i].len() > 0 && is_ascii_alpha(body[i][0]) && !spec_is_qualifier(body[i]) && body[i] != "USE"@
            && body[i] != "ROUTED"@ && body[i] != "NEW"@ && st.cur is Some && st.last is Some) ==> ({
            let r = sn_step(body, i, st).1;
            let a = st.cur->0;
            let b = r.cur->0;
            let p = st.last->0;
            &&& r.cur is Some
            &&& b.vias == a.vias.push(p)
            &&& b.via_names == a.via_names.push((body[i], p.0, p.1))
            &&& b.segs == a.segs
            &&& b.points == a.points
            &&& b.name == a.name
            &&& b.use_power == a.use_power
            &&& r.nets == st.nets
        }),
{
    reveal_strlit("-");
    reveal_strlit(";");
    reveal_strlit("(");
    reveal_strlit("+");
    reveal_strlit("USE");
    reveal_strlit("ROUTED");
    reveal_strlit("NEW");
    assert("-"@.len() == 1 && ";"@.len() == 1 && "("@.len() == 1 && "+"@.len() == 1);
    assert("USE"@.len() == 3 && "ROUTED"@.len() == 6 && "NEW"@.len() == 3);
    assert("-"@[0] == '-' && ";"@[0] == ';' && "("@[0] == '(' && "+"@[0] == '+' && "USE"@[0] == 'U');
}

/// The power net is the first net with `USE POWER`; failing that, the first named
/// `VPWR`, `VDD`, `VCCD`, `VCC` or `VDDP`; failing that, the first net.
pub proof fn lemma_power_net_choice(nets: Seq<NetV>)
    ensures
        nets.len() == 0 ==> spec_power_net(nets) is None,
        forall|k: int|
            0 <= k < nets.len() && nets[k].use_power && (forall|j: int| 0 <= j < k ==> !(#[trigger] nets[j]).use_power)
                ==> spec_power_net(nets) == Some(k),
        (forall|j: int| 0 <= j < nets.len() ==> !(#[trigger] nets[j]).use_power) ==> forall|k: int|
            0 <= k < nets.len() && is_power_name(nets[k].name) && (forall|j: int|
                0 <= j < k ==> !is_power_name(#[trigger] nets[j].name)) ==> spec_power_net(nets) == Some(k),
        (nets.len() > 0 && forall|j: int|
            0 <= j < nets.len() ==> !(#[trigger] nets[j]).use_power && !is_power_name(nets[j].name)) ==> spec_power_net(
            nets,
        ) == Some(0int),
{
    lemma_first_use_power(nets);
    lemma_first_power_named(nets);
    assert forall|k: int|
        0 <= k < nets.len() && nets[k].use_power && (forall|j: int| 0 <= j < k ==> !(#[trigger] nets[j]).use_power)
            implies spec_power_net(nets) == Some(k) by {
        lemma_first_exact_use_power(nets, k);
    }
    if forall|j: int| 0 <= j < nets.len() ==> !(#[trigger] nets[j]).use_power {
        lemma_first_exact_use_power(nets, nets.len() as int);
        assert forall|k: int|
            0 <= k < nets.len() && is_power_name(nets[k].name) && (forall|j: int|
                0 <= j < k ==> !is_power_name(#[trigger] nets[j].name)) implies spec_power_net(nets) == Some(k) by {
            lemma_first_exact_named(nets, k);
        }
        if nets.len() > 0 && forall|j: int| 0 <= j < nets.len() ==> !is_power_name(#[trigger] nets[j].name) {
            lemma_first_exact_named(nets, nets.len() as int);
        }
    }
}

impl Def {
    /// The power net to analyze (see `spec_power_net`).
    pub fn power_net(&self) -> (r: Option<&NetGeom>)
        ensures
            match spec_power_net(nets_view(self.nets@)) {
                Some(k) => r is Some && r->0@ == nets_view(self.nets@)[k],
                None => r is None,
            },
    {
        let ghost ns = nets_view(self.nets@);
        let mut i: usize = 0;
        while i < self.nets.len()
            invariant
                i <= self.nets@.len(),
                ns == nets_view(self.nets@),
                forall|j: int| 0 <= j < i ==> !ns[j].use_power,
            decreases self.nets.len() - i,
        {
            if self.nets[i].use_power {
                proof {
                    lemma_first_exact_use_power(ns, i as int);
                }
                return Some(&self.nets[i]);
            }
            i += 1;
        }
        proof {
            lemma_first_exact_use_power(ns, i as int);
        }
        let mut k: usize = 0;
        while k < self.nets.len()
            invariant
                k <= self.nets@.len(),
                ns == nets_view(self.nets@),
                first_use_power(ns) == ns.len(),
                forall|j: int| 0 <= j < k ==> !is_power_name(ns[j].name),
            decreases self.nets.len() - k,
        {
            if is_power_name_exec(&self.nets[k].name) {
                proof {
                    lemma_first_exact_named(ns, k as int);
                }
                return Some(&self.nets[k]);
            }
            k += 1;
        }
        proof {
            lemma_first_exact_named(ns, k as int);
        }
        if self.nets.len() > 0 {
            Some(&self.nets[0])
        } else {
            None
        }
    }

    /// Reads DEF text (see `spec_def`).
    pub fn parse(text: &str) -> (r: Result<Def, DefError>)
        ensures
            match r {
                Ok(d) => {
                    &&& spec_def(text@) == Ok::<(Seq<char>, Seq<NetV>), Seq<char>>((d.dbu@, nets_view(d.nets@)))
                    &&& d.comps@.map_values(|c: Comp| c@) == spec_comps(spec_words(text@))
                    &&& d.pins@.map_values(|p: Pin| p@) == spec_pins(spec_words(text@))
                    &&& d.via_defs@.map_values(|v: (String, ViaDef)| via_def_view(v)) == spec_via_defs(spec_words(text@))
                },
                Err(e) => spec_def(text@) == Err::<(Seq<char>, Seq<NetV>), Seq<char>>(e.0@),
            },
    {
        let chars = chars_of(text);
        let toks = words_of(chars.as_slice());
        let ghost ts = seqs(toks@);
        let n = toks.len();
        // the last UNITS DISTANCE MICRONS window wins
        let mut dbu: String = "1000.0".to_string();
        let mut w: usize = 0;
        while n >= 4 && w < n - 3
            invariant
                n == toks@.len(),
                ts == seqs(toks@),
                n >= 4 ==> w <= n - 3,
                n >= 4 ==> dbu@ == dbu_before(ts, w as int),
                n < 4 ==> w == 0 && dbu@ == "1000.0"@,
            decreases n - w,
        {
            if eq_lit(toks[w].as_slice(), "UNITS") && eq_lit(toks[w + 1].as_slice(), "DISTANCE")
                && eq_lit(toks[w + 2].as_slice(), "MICRONS") {
                let v = trim_end(toks[w + 3].as_slice(), ';');
                dbu = if is_number(v) { string_of(v) } else { "1000.0".to_string() };
            }
            w += 1;
        }
        assert(dbu@ == spec_dbu(ts));
        let mut s: usize = 0;
        while s < n && !eq_lit(toks[s].as_slice(), "SPECIALNETS")
            invariant
                s <= n,
                n == toks@.len(),
                ts == seqs(toks@),
                find_word(ts, "SPECIALNETS"@, 0) == find_word(ts, "SPECIALNETS"@, s as int),
            decreases n - s,
        {
            s += 1;
        }
        if s >= n {
            return Err(DefError("no SPECIALNETS section".to_string()));
        }
        proof {
            reveal_strlit("END");
            reveal_strlit("SPECIALNETS");
            assert(ts[s as int] == toks@[s as int]@);
            assert(toks@[s as int]@ == "SPECIALNETS"@);
            assert("END"@.len() == 3);
            assert("SPECIALNETS"@.len() == 11);
            assert(ts[s as int] != "END"@);
        }
        let mut e: usize = s + 1;
        while e < n && !(eq_lit(toks[e].as_slice(), "END") && e + 1 < n && eq_lit(
            toks[e + 1].as_slice(),
            "SPECIALNETS",
        ))
            invariant
                s <= e <= n,
                n == toks@.len(),
                ts == seqs(toks@),
                find_end(ts, s as int) == find_end(ts, e as int),
            decreases n - e,
        {
            e += 1;
        }
        let body = slice_vecs(toks.as_slice(), s + 1, e);
        let nets = parse_specialnets(body);
        if nets.len() == 0 {
            return Err(DefError("no special nets parsed".to_string()));
        }
        let comps = read_comps(toks.as_slice());
        let pins = read_pins(toks.as_slice());
        let via_defs = read_via_defs(toks.as_slice());
        Ok(Def { dbu, nets, comps, pins, via_defs })
    }
}

/// The vectors of `v` from `a` up to (not including) `b`.
fn slice_vecs(v: &[Vec<char>], a: usize, b: usize) -> (r: &[Vec<char>])
    requires
        a <= b <= v@.len(),
    ensures
        seqs(r@) == seqs(v@).subrange(a as int, b as int),
{
    let (head, _) = v.split_at(b);
    let (_, mid) = head.split_at(a);
    assert(seqs(mid@) =~= seqs(v@).subrange(a as int, b as int));
    mid
}


impl DefError {
    /// The error as text: `def error: <reason>`.
    pub fn message(&self) -> (s: String)
        ensures
            s@ == "def error: "@ + self.0@,
    {
        let mut out: Vec<char> = Vec::new();
        crate::text::push_str(&mut out, "def error: ");
        crate::text::push_chars(&mut out, chars_of(self.0.as_str()).as_slice());
        string_of(out.as_slice())
    }
}

} // verus!
