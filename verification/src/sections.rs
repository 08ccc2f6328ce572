//! The DEF sections that place things: `COMPONENTS` (instances and where they sit),
//! `PINS` (the design's ports, with their placed shapes) and `VIAS` (via definitions:
//! the layers a via joins and how many cuts it has).
//!
//! Each section is a list of entries, `- <name> ... ;`; an entry is read on its own.

use vstd::prelude::*;
use crate::num::{parse_i64, spec_parse_i64};
use crate::text::{eq_lit, seqs, string_of};

verus! {

broadcast use {vstd::string::group_string_axioms, crate::text::lemma_map_push};

/// A placed instance: its name, its cell, and its origin (DB units).
#[derive(Debug, Clone)]
pub struct Comp {
    pub name: String,
    pub cell: String,
    pub x: i64,
    pub y: i64,
}

/// A port rectangle of a pin, placed on the die (DB units, `x1 <= x2`, `y1 <= y2`).
#[derive(Debug, Clone)]
pub struct PinShape {
    pub layer: String,
    pub x1: i64,
    pub y1: i64,
    pub x2: i64,
    pub y2: i64,
}

/// A design pin: its name, the net it belongs to, its use, and its port shapes.
#[derive(Debug, Clone)]
pub struct Pin {
    pub name: String,
    pub net: String,
    pub use_power: bool,
    pub use_ground: bool,
    pub shapes: Vec<PinShape>,
}

/// A via definition: the layers below and above, the cut layer, and the cut count.
#[derive(Debug, Clone)]
pub struct ViaDef {
    pub below: String,
    pub cut_layer: String,
    pub above: String,
    pub cuts: u64,
}

pub struct CompV {
    pub name: Seq<char>,
    pub cell: Seq<char>,
    pub x: i64,
    pub y: i64,
}

pub struct ShapeV {
    pub layer: Seq<char>,
    pub x1: i64,
    pub y1: i64,
    pub x2: i64,
    pub y2: i64,
}

pub struct PinV {
    pub name: Seq<char>,
    pub net: Seq<char>,
    pub use_power: bool,
    pub use_ground: bool,
    pub shapes: Seq<ShapeV>,
}

pub struct ViaDefV {
    pub below: Seq<char>,
    pub cut_layer: Seq<char>,
    pub above: Seq<char>,
    pub cuts: u64,
}

impl View for Comp {
    type V = CompV;

    open spec fn view(&self) -> CompV {
        CompV { name: self.name@, cell: self.cell@, x: self.x, y: self.y }
    }
}

impl View for PinShape {
    type V = ShapeV;

    open spec fn view(&self) -> ShapeV {
        ShapeV { layer: self.layer@, x1: self.x1, y1: self.y1, x2: self.x2, y2: self.y2 }
    }
}

impl View for Pin {
    type V = PinV;

    open spec fn view(&self) -> PinV {
        PinV {
            name: self.name@,
            net: self.net@,
            use_power: self.use_power,
            use_ground: self.use_ground,
            shapes: self.shapes@.map_values(|s: PinShape| s@),
        }
    }
}

impl View for ViaDef {
    type V = ViaDefV;

    open spec fn view(&self) -> ViaDefV {
        ViaDefV { below: self.below@, cut_layer: self.cut_layer@, above: self.above@, cuts: self.cuts }
    }
}

pub open spec fn via_def_view(e: (String, ViaDef)) -> (Seq<char>, ViaDefV) {
    (e.0@, e.1@)
}

// ---------------------------------------------------------------------------------
// Sections and entries.
// ---------------------------------------------------------------------------------

/// Index of the first word `w` at or after `from`, or the length.
pub open spec fn word_from(toks: Seq<Seq<char>>, w: Seq<char>, from: int) -> int
    decreases toks.len() - from,
{
    if from < 0 || from >= toks.len() {
        toks.len() as int
    } else if toks[from] == w {
        from
    } else {
        word_from(toks, w, from + 1)
    }
}

/// Index of the first `END w` at or after `from`, or the length.
pub open spec fn end_from(toks: Seq<Seq<char>>, w: Seq<char>, from: int) -> int
    decreases toks.len() - from,
{
    if from < 0 || from >= toks.len() {
        toks.len() as int
    } else if toks[from] == "END"@ && from + 1 < toks.len() && toks[from + 1] == w {
        from
    } else {
        end_from(toks, w, from + 1)
    }
}

/// The words of section `w`: after its first `w`, up to `END w` (empty when absent).
pub open spec fn section(toks: Seq<Seq<char>>, w: Seq<char>) -> Seq<Seq<char>> {
    let s = word_from(toks, w, 0);
    if s >= toks.len() {
        seq![]
    } else {
        toks.subrange(s + 1, end_from(toks, w, s + 1))
    }
}

pub type Entry = Seq<Seq<char>>;

pub open spec fn close_entry(acc: Seq<Entry>, cur: Option<Entry>) -> Seq<Entry> {
    match cur {
        Some(e) => acc.push(e),
        None => acc,
    }
}

/// The entries closed so far and the one still open: `-` opens an entry, `;` closes
/// it, and other words go to the open entry.
pub open spec fn entry_state(b: Seq<Seq<char>>) -> (Seq<Entry>, Option<Entry>)
    decreases b.len(),
{
    if b.len() == 0 {
        (seq![], None)
    } else {
        let (acc, cur) = entry_state(b.drop_last());
        let t = b.last();
        if t == "-"@ {
            (close_entry(acc, cur), Some(seq![]))
        } else if t == ";"@ {
            (close_entry(acc, cur), None)
        } else {
            match cur {
                Some(e) => (acc, Some(e.push(t))),
                None => (acc, None),
            }
        }
    }
}

/// The entries of a section's words, each without its `-` and `;`.
pub open spec fn entries(b: Seq<Seq<char>>) -> Seq<Entry> {
    let (acc, cur) = entry_state(b);
    close_entry(acc, cur)
}

// ---------------------------------------------------------------------------------
// COMPONENTS.
// ---------------------------------------------------------------------------------

pub open spec fn is_place_kw(t: Seq<char>) -> bool {
    t == "PLACED"@ || t == "FIXED"@ || t == "COVER"@
}

/// `PLACED ( x y )` (or `FIXED`, `COVER`) at index `j`.
pub open spec fn place_at(e: Entry, j: int) -> Option<(i64, i64)> {
    if 0 <= j && j + 3 < e.len() && is_place_kw(e[j]) && e[j + 1] == "("@ {
        match (spec_parse_i64(e[j + 2]), spec_parse_i64(e[j + 3])) {
            (Some(x), Some(y)) => Some((x, y)),
            _ => None,
        }
    } else {
        None
    }
}

/// The first placement at or after index `j`.
pub open spec fn first_place(e: Entry, j: int) -> Option<(i64, i64)>
    decreases e.len() - j,
{
    if j < 0 || j >= e.len() {
        None
    } else {
        match place_at(e, j) {
            Some(p) => Some(p),
            None => first_place(e, j + 1),
        }
    }
}

/// A component entry `- <name> <cell> ... + PLACED ( x y ) ...`; an entry without a
/// placement places nothing.
pub open spec fn comp_of(e: Entry) -> Option<CompV> {
    if e.len() < 2 {
        None
    } else {
        match first_place(e, 2) {
            Some(p) => Some(CompV { name: e[0], cell: e[1], x: p.0, y: p.1 }),
            None => None,
        }
    }
}

pub open spec fn comps_of(es: Seq<Entry>) -> Seq<CompV>
    decreases es.len(),
{
    if es.len() == 0 {
        seq![]
    } else {
        let r = comps_of(es.drop_last());
        match comp_of(es.last()) {
            Some(c) => r.push(c),
            None => r,
        }
    }
}

/// The placed components of a DEF's words, in order.
pub open spec fn spec_comps(toks: Seq<Seq<char>>) -> Seq<CompV> {
    comps_of(entries(section(toks, "COMPONENTS"@)))
}

// ---------------------------------------------------------------------------------
// VIAS.
// ---------------------------------------------------------------------------------

/// `LAYERS <below> <cut> <above>` at index `j`.
pub open spec fn layers_at(e: Entry, j: int) -> Option<(Seq<char>, Seq<char>, Seq<char>)> {
    if 0 <= j && j + 3 < e.len() && e[j] == "LAYERS"@ {
        Some((e[j + 1], e[j + 2], e[j + 3]))
    } else {
        None
    }
}

pub open spec fn first_layers(e: Entry, j: int) -> Option<(Seq<char>, Seq<char>, Seq<char>)>
    decreases e.len() - j,
{
    if j < 0 || j >= e.len() {
        None
    } else {
        match layers_at(e, j) {
            Some(l) => Some(l),
            None => first_layers(e, j + 1),
        }
    }
}

/// `ROWCOL <rows> <cols>` at index `j`, as the cut count `rows · cols`.
pub open spec fn rowcol_at(e: Entry, j: int) -> Option<int> {
    if 0 <= j && j + 2 < e.len() && e[j] == "ROWCOL"@ {
        match (spec_parse_i64(e[j + 1]), spec_parse_i64(e[j + 2])) {
            (Some(r), Some(c)) => if r >= 0 && c >= 0 { Some(r * c) } else { None },
            _ => None,
        }
    } else {
        None
    }
}

pub open spec fn first_rowcol(e: Entry, j: int) -> Option<int>
    decreases e.len() - j,
{
    if j < 0 || j >= e.len() {
        None
    } else {
        match rowcol_at(e, j) {
            Some(n) => Some(n),
            None => first_rowcol(e, j + 1),
        }
    }
}

/// A via definition `- <name> ... + LAYERS <below> <cut> <above> ... + ROWCOL r c ;`:
/// one cut without `ROWCOL`, none (unpriced) when the count does not fit a `u64`; an
/// entry without `LAYERS` defines nothing.
pub open spec fn via_of(e: Entry) -> Option<(Seq<char>, ViaDefV)> {
    if e.len() < 1 {
        None
    } else {
        match first_layers(e, 1) {
            Some(l) => {
                let cuts: u64 = match first_rowcol(e, 1) {
                    Some(n) => if n <= u64::MAX { n as u64 } else { 0 },
                    None => 1,
                };
                Some((e[0], ViaDefV { below: l.0, cut_layer: l.1, above: l.2, cuts }))
            },
            None => None,
        }
    }
}

pub open spec fn vias_of(es: Seq<Entry>) -> Seq<(Seq<char>, ViaDefV)>
    decreases es.len(),
{
    if es.len() == 0 {
        seq![]
    } else {
        let r = vias_of(es.drop_last());
        match via_of(es.last()) {
            Some(v) => r.push(v),
            None => r,
        }
    }
}

/// The via definitions of a DEF's words, in order.
pub open spec fn spec_via_defs(toks: Seq<Seq<char>>) -> Seq<(Seq<char>, ViaDefV)> {
    vias_of(entries(section(toks, "VIAS"@)))
}

// ---------------------------------------------------------------------------------
// PINS.
// ---------------------------------------------------------------------------------

/// A rectangle as written: layer and two corners.
pub type RectI = (Seq<char>, int, int, int, int);

/// `LAYER <l> ( x1 y1 ) ( x2 y2 )` at index `j`.
pub open spec fn rect_at(e: Entry, j: int) -> Option<RectI> {
    if 0 <= j && j + 9 < e.len() && e[j] == "LAYER"@ && e[j + 2] == "("@ && e[j + 5] == ")"@
        && e[j + 6] == "("@ && e[j + 9] == ")"@ {
        match (spec_parse_i64(e[j + 3]), spec_parse_i64(e[j + 4]), spec_parse_i64(e[j + 7]), spec_parse_i64(e[j + 8])) {
            (Some(a), Some(b), Some(c), Some(d)) => Some((e[j + 1], a as int, b as int, c as int, d as int)),
            _ => None,
        }
    } else {
        None
    }
}

/// `PLACED ( x y ) <orient>` at index `j` (orientation `N` when none follows).
pub open spec fn placement_at(e: Entry, j: int) -> Option<(int, int, Seq<char>)> {
    if 0 <= j && j + 4 < e.len() && is_place_kw(e[j]) && e[j + 1] == "("@ && e[j + 4] == ")"@ {
        match (spec_parse_i64(e[j + 2]), spec_parse_i64(e[j + 3])) {
            (Some(x), Some(y)) => Some((x as int, y as int, if j + 5 < e.len() { e[j + 5] } else { "N"@ })),
            _ => None,
        }
    } else {
        None
    }
}

/// A point of a shape placed at `(px, py)` with orientation `o` (DEF orientations; an
/// unknown one reads as `N`).
pub open spec fn orient(o: Seq<char>, px: int, py: int, x: int, y: int) -> (int, int) {
    if o == "S"@ {
        (px - x, py - y)
    } else if o == "W"@ {
        (px - y, py + x)
    } else if o == "E"@ {
        (px + y, py - x)
    } else if o == "FN"@ {
        (px - x, py + y)
    } else if o == "FS"@ {
        (px + x, py - y)
    } else if o == "FW"@ {
        (px - y, py - x)
    } else if o == "FE"@ {
        (px + y, py + x)
    } else {
        (px + x, py + y)
    }
}

pub open spec fn fits64(v: int) -> bool {
    i64::MIN <= v <= i64::MAX
}

pub open spec fn min_i(a: int, b: int) -> int {
    if a <= b { a } else { b }
}

pub open spec fn max_i(a: int, b: int) -> int {
    if a <= b { b } else { a }
}

/// The shape with corners `a` and `b`, when its coordinates fit an `i64`.
pub open spec fn shape_of(l: Seq<char>, a: (int, int), b: (int, int)) -> Option<ShapeV> {
    if fits64(a.0) && fits64(a.1) && fits64(b.0) && fits64(b.1) {
        Some(ShapeV {
            layer: l,
            x1: min_i(a.0, b.0) as i64,
            y1: min_i(a.1, b.1) as i64,
            x2: max_i(a.0, b.0) as i64,
            y2: max_i(a.1, b.1) as i64,
        })
    } else {
        None
    }
}

pub open spec fn place_rect(r: RectI, pl: (int, int, Seq<char>)) -> Option<ShapeV> {
    shape_of(r.0, orient(pl.2, pl.0, pl.1, r.1, r.2), orient(pl.2, pl.0, pl.1, r.3, r.4))
}

/// The pending rectangles placed, those whose placed coordinates fit an `i64`.
pub open spec fn place_all(rs: Seq<RectI>, pl: (int, int, Seq<char>)) -> Seq<ShapeV>
    decreases rs.len(),
{
    if rs.len() == 0 {
        seq![]
    } else {
        let r = place_all(rs.drop_last(), pl);
        match place_rect(rs.last(), pl) {
            Some(s) => r.push(s),
            None => r,
        }
    }
}

/// The rectangles read before index `n`: those still waiting for a placement, and the
/// shapes placed so far. A placement places every rectangle written since the last.
pub open spec fn pin_scan(e: Entry, n: int) -> (Seq<RectI>, Seq<ShapeV>)
    decreases n,
{
    if n <= 0 {
        (seq![], seq![])
    } else {
        let (pend, done) = pin_scan(e, n - 1);
        match rect_at(e, n - 1) {
            Some(r) => (pend.push(r), done),
            None => match placement_at(e, n - 1) {
                Some(pl) => (seq![], done + place_all(pend, pl)),
                None => (pend, done),
            },
        }
    }
}

/// The shapes of a pin: the placed ones, then any left unplaced, as written.
pub open spec fn pin_shapes_of(e: Entry) -> Seq<ShapeV> {
    let (pend, done) = pin_scan(e, e.len() as int);
    done + place_all(pend, (0, 0, "N"@))
}

/// Whether `a b` occurs at or after index `j`.
pub open spec fn has_pair(e: Entry, a: Seq<char>, b: Seq<char>, j: int) -> bool
    decreases e.len() - j,
{
    if j < 0 || j + 1 >= e.len() {
        false
    } else if e[j] == a && e[j + 1] == b {
        true
    } else {
        has_pair(e, a, b, j + 1)
    }
}

/// The word after the first `a` at or after index `j` (empty when none).
pub open spec fn after_word(e: Entry, a: Seq<char>, j: int) -> Seq<char>
    decreases e.len() - j,
{
    if j < 0 || j + 1 >= e.len() {
        seq![]
    } else if e[j] == a {
        e[j + 1]
    } else {
        after_word(e, a, j + 1)
    }
}

/// A pin entry `- <name> + NET <net> ... + USE POWER ... + LAYER ... + FIXED ... ;`.
pub open spec fn pin_of(e: Entry) -> Option<PinV> {
    if e.len() < 1 {
        None
    } else {
        Some(PinV {
            name: e[0],
            net: after_word(e, "NET"@, 1),
            use_power: has_pair(e, "USE"@, "POWER"@, 1),
            use_ground: has_pair(e, "USE"@, "GROUND"@, 1),
            shapes: pin_shapes_of(e),
        })
    }
}

pub open spec fn pins_of(es: Seq<Entry>) -> Seq<PinV>
    decreases es.len(),
{
    if es.len() == 0 {
        seq![]
    } else {
        let r = pins_of(es.drop_last());
        match pin_of(es.last()) {
            Some(p) => r.push(p),
            None => r,
        }
    }
}

/// The pins of a DEF's words, in order.
pub open spec fn spec_pins(toks: Seq<Seq<char>>) -> Seq<PinV> {
    pins_of(entries(section(toks, "PINS"@)))
}

// ---------------------------------------------------------------------------------
// Executable readers.
// ---------------------------------------------------------------------------------

pub open spec fn entries_view(v: Seq<Vec<Vec<char>>>) -> Seq<Entry> {
    v.map_values(|e: Vec<Vec<char>>| seqs(e@))
}

pub open spec fn opt_entry_view(c: Option<Vec<Vec<char>>>) -> Option<Entry> {
    match c {
        Some(e) => Some(seqs(e@)),
        None => None,
    }
}

/// The words of section `w` (see `section`).
fn section_exec(toks: &[Vec<char>], w: &str) -> (r: Vec<Vec<char>>)
    ensures
        seqs(r@) == section(seqs(toks@), w@),
{
    let ghost ts = seqs(toks@);
    let n = toks.len();
    let mut s: usize = 0;
    while s < n && !eq_lit(toks[s].as_slice(), w)
        invariant
            s <= n,
            n == toks@.len(),
            ts == seqs(toks@),
            word_from(ts, w@, 0) == word_from(ts, w@, s as int),
        decreases n - s,
    {
        s += 1;
    }
    let mut r: Vec<Vec<char>> = Vec::new();
    if s >= n {
        assert(seqs(r@) =~= section(ts, w@));
        return r;
    }
    let mut e: usize = s + 1;
    while e < n && !(eq_lit(toks[e].as_slice(), "END") && e + 1 < n && eq_lit(toks[e + 1].as_slice(), w))
        invariant
            s < e <= n,
            n == toks@.len(),
            ts == seqs(toks@),
            end_from(ts, w@, s + 1) == end_from(ts, w@, e as int),
        decreases n - e,
    {
        e += 1;
    }
    let mut i: usize = s + 1;
    while i < e
        invariant
            s + 1 <= i <= e <= n,
            n == toks@.len(),
            ts == seqs(toks@),
            seqs(r@) == ts.subrange(s + 1, i as int),
        decreases e - i,
    {
        r.push(toks[i].clone());
        assert(seqs(r@) =~= ts.subrange(s + 1, i + 1));
        i += 1;
    }
    r
}

/// The entries of a section's words (see `entries`).
fn entries_exec(b: &Vec<Vec<char>>) -> (r: Vec<Vec<Vec<char>>>)
    ensures
        entries_view(r@) == entries(seqs(b@)),
{
    let ghost bs = seqs(b@);
    let mut acc: Vec<Vec<Vec<char>>> = Vec::new();
    let mut cur: Option<Vec<Vec<char>>> = None;
    let mut i: usize = 0;
    assert(bs.take(0) =~= Seq::<Seq<char>>::empty());
    while i < b.len()
        invariant
            i <= b@.len(),
            bs == seqs(b@),
            (entries_view(acc@), opt_entry_view(cur)) == entry_state(bs.take(i as int)),
        decreases b.len() - i,
    {
        assert(bs.take(i + 1).drop_last() =~= bs.take(i as int));
        assert(bs.take(i + 1).last() == b@[i as int]@);
        let t = b[i].as_slice();
        if eq_lit(t, "-") {
            match cur.take() {
                Some(e) => acc.push(e),
                None => {},
            }
            cur = Some(Vec::new());
            assert(opt_entry_view(cur) == Some(Seq::<Seq<char>>::empty())) by {
                assert(seqs(Seq::<Vec<char>>::empty()) =~= Seq::<Seq<char>>::empty());
            }
        } else if eq_lit(t, ";") {
            match cur.take() {
                Some(e) => acc.push(e),
                None => {},
            }
        } else {
            match cur.take() {
                Some(mut e) => {
                    e.push(b[i].clone());
                    cur = Some(e);
                },
                None => {},
            }
        }
        i += 1;
    }
    assert(bs.take(i as int) =~= bs);
    match cur {
        Some(e) => acc.push(e),
        None => {},
    }
    acc
}

fn is_place_kw_exec(t: &[char]) -> (b: bool)
    ensures
        b == is_place_kw(t@),
{
    eq_lit(t, "PLACED") || eq_lit(t, "FIXED") || eq_lit(t, "COVER")
}

fn first_place_exec(e: &Vec<Vec<char>>, j0: usize) -> (r: Option<(i64, i64)>)
    ensures
        r == first_place(seqs(e@), j0 as int),
{
    let ghost es = seqs(e@);
    let mut j = j0;
    while j < e.len()
        invariant
            j0 <= j,
            es == seqs(e@),
            first_place(es, j0 as int) == first_place(es, j as int),
        decreases e.len() - j,
    {
        if e.len() - j > 3 && is_place_kw_exec(e[j].as_slice()) && eq_lit(e[j + 1].as_slice(), "(") {
            let x = parse_i64(e[j + 2].as_slice());
            let y = parse_i64(e[j + 3].as_slice());
            if x.is_some() && y.is_some() {
                return Some((x.unwrap(), y.unwrap()));
            }
        }
        j += 1;
    }
    None
}

/// The placed components of a DEF's words (see `spec_comps`).
pub fn read_comps(toks: &[Vec<char>]) -> (r: Vec<Comp>)
    ensures
        r@.map_values(|c: Comp| c@) == spec_comps(seqs(toks@)),
{
    let body = section_exec(toks, "COMPONENTS");
    let es = entries_exec(&body);
    let ghost ev = entries_view(es@);
    let mut r: Vec<Comp> = Vec::new();
    let mut k: usize = 0;
    while k < es.len()
        invariant
            k <= es@.len(),
            ev == entries_view(es@),
            r@.map_values(|c: Comp| c@) == comps_of(ev.take(k as int)),
        decreases es.len() - k,
    {
        assert(ev.take(k + 1).drop_last() =~= ev.take(k as int));
        assert(ev.take(k + 1).last() == seqs(es@[k as int]@));
        let e = &es[k];
        if e.len() >= 2 {
            match first_place_exec(e, 2) {
                Some(p) => {
                    r.push(Comp { name: string_of(e[0].as_slice()), cell: string_of(e[1].as_slice()), x: p.0, y: p.1 });
                },
                None => {},
            }
        }
        assert(r@.map_values(|c: Comp| c@) =~= comps_of(ev.take(k + 1)));
        k += 1;
    }
    assert(ev.take(k as int) =~= ev);
    r
}

fn first_layers_exec(e: &Vec<Vec<char>>) -> (r: Option<usize>)
    ensures
        match r {
            Some(j) => j + 3 < e@.len() && first_layers(seqs(e@), 1) == Some(
                (e@[j + 1]@, e@[j + 2]@, e@[j + 3]@),
            ),
            None => first_layers(seqs(e@), 1) is None,
        },
{
    let ghost es = seqs(e@);
    let mut j: usize = 1;
    while j < e.len()
        invariant
            1 <= j,
            es == seqs(e@),
            first_layers(es, 1) == first_layers(es, j as int),
        decreases e.len() - j,
    {
        if e.len() - j > 3 && eq_lit(e[j].as_slice(), "LAYERS") {
            return Some(j);
        }
        j += 1;
    }
    None
}

fn first_rowcol_exec(e: &Vec<Vec<char>>) -> (r: Option<(i64, i64)>)
    ensures
        match r {
            Some((a, b)) => a >= 0 && b >= 0 && first_rowcol(seqs(e@), 1) == Some(a * b),
            None => first_rowcol(seqs(e@), 1) is None,
        },
{
    let ghost es = seqs(e@);
    let mut j: usize = 1;
    while j < e.len()
        invariant
            1 <= j,
            es == seqs(e@),
            first_rowcol(es, 1) == first_rowcol(es, j as int),
        decreases e.len() - j,
    {
        if e.len() - j > 2 && eq_lit(e[j].as_slice(), "ROWCOL") {
            let a = parse_i64(e[j + 1].as_slice());
            let b = parse_i64(e[j + 2].as_slice());
            if a.is_some() && b.is_some() && a.unwrap() >= 0 && b.unwrap() >= 0 {
                return Some((a.unwrap(), b.unwrap()));
            }
        }
        j += 1;
    }
    None
}

/// The via definitions of a DEF's words (see `spec_via_defs`).
pub fn read_via_defs(toks: &[Vec<char>]) -> (r: Vec<(String, ViaDef)>)
    ensures
        r@.map_values(|v: (String, ViaDef)| via_def_view(v)) == spec_via_defs(seqs(toks@)),
{
    let body = section_exec(toks, "VIAS");
    let es = entries_exec(&body);
    let ghost ev = entries_view(es@);
    let mut r: Vec<(String, ViaDef)> = Vec::new();
    let mut k: usize = 0;
    while k < es.len()
        invariant
            k <= es@.len(),
            ev == entries_view(es@),
            r@.map_values(|v: (String, ViaDef)| via_def_view(v)) == vias_of(ev.take(k as int)),
        decreases es.len() - k,
    {
        assert(ev.take(k + 1).drop_last() =~= ev.take(k as int));
        assert(ev.take(k + 1).last() == seqs(es@[k as int]@));
        let e = &es[k];
        if e.len() >= 1 {
            match first_layers_exec(e) {
                Some(j) => {
                    let cuts: u64 = match first_rowcol_exec(e) {
                        Some((a, b)) => {
                            let (ua, ub) = (a as u128, b as u128);
                            assert(ua * ub <= 0x7fff_ffff_ffff_ffffu128 * 0x7fff_ffff_ffff_ffffu128) by (nonlinear_arith)
                                requires
                                    ua <= 0x7fff_ffff_ffff_ffffu128,
                                    ub <= 0x7fff_ffff_ffff_ffffu128,
                            ;
                            let p = ua * ub;
                            assert(p == a * b);
                            if p <= 0xffff_ffff_ffff_ffffu128 { p as u64 } else { 0 }
                        },
                        None => 1,
                    };
                    r.push(
                        (
                            string_of(e[0].as_slice()),
                            ViaDef {
                                below: string_of(e[j + 1].as_slice()),
                                cut_layer: string_of(e[j + 2].as_slice()),
                                above: string_of(e[j + 3].as_slice()),
                                cuts,
                            },
                        ),
                    );
                },
                None => {},
            }
        }
        assert(r@.map_values(|v: (String, ViaDef)| via_def_view(v)) =~= vias_of(ev.take(k + 1)));
        k += 1;
    }
    assert(ev.take(k as int) =~= ev);
    r
}

fn has_pair_exec(e: &Vec<Vec<char>>, a: &str, b: &str) -> (r: bool)
    ensures
        r == has_pair(seqs(e@), a@, b@, 1),
{
    let ghost es = seqs(e@);
    let mut j: usize = 1;
    while j < e.len() && e.len() - j > 1
        invariant
            1 <= j,
            es == seqs(e@),
            has_pair(es, a@, b@, 1) == has_pair(es, a@, b@, j as int),
        decreases e.len() - j,
    {
        if eq_lit(e[j].as_slice(), a) && eq_lit(e[j + 1].as_slice(), b) {
            return true;
        }
        j += 1;
    }
    false
}

fn after_word_exec(e: &Vec<Vec<char>>, a: &str) -> (r: Vec<char>)
    ensures
        r@ == after_word(seqs(e@), a@, 1),
{
    let ghost es = seqs(e@);
    let mut j: usize = 1;
    while j < e.len() && e.len() - j > 1
        invariant
            1 <= j,
            es == seqs(e@),
            after_word(es, a@, 1) == after_word(es, a@, j as int),
        decreases e.len() - j,
    {
        if eq_lit(e[j].as_slice(), a) {
            return e[j + 1].clone();
        }
        j += 1;
    }
    Vec::new()
}

pub open spec fn rect_view(r: (Vec<char>, i64, i64, i64, i64)) -> RectI {
    (r.0@, r.1 as int, r.2 as int, r.3 as int, r.4 as int)
}

fn rect_at_exec(e: &Vec<Vec<char>>, j: usize) -> (r: Option<(Vec<char>, i64, i64, i64, i64)>)
    requires
        j < e@.len(),
    ensures
        match r {
            Some(x) => rect_at(seqs(e@), j as int) == Some(rect_view(x)),
            None => rect_at(seqs(e@), j as int) is None,
        },
{
    if e.len() - j > 9 && eq_lit(e[j].as_slice(), "LAYER") && eq_lit(e[j + 2].as_slice(), "(") && eq_lit(
        e[j + 5].as_slice(),
        ")",
    ) && eq_lit(e[j + 6].as_slice(), "(") && eq_lit(e[j + 9].as_slice(), ")") {
        let a = parse_i64(e[j + 3].as_slice());
        let b = parse_i64(e[j + 4].as_slice());
        let c = parse_i64(e[j + 7].as_slice());
        let d = parse_i64(e[j + 8].as_slice());
        match (a, b, c, d) {
            (Some(a), Some(b), Some(c), Some(d)) => Some((e[j + 1].clone(), a, b, c, d)),
            _ => None,
        }
    } else {
        None
    }
}

fn placement_at_exec(e: &Vec<Vec<char>>, j: usize) -> (r: Option<(i64, i64, Vec<char>)>)
    requires
        j < e@.len(),
    ensures
        match r {
            Some(x) => placement_at(seqs(e@), j as int) == Some((x.0 as int, x.1 as int, x.2@)),
            None => placement_at(seqs(e@), j as int) is None,
        },
{
    proof {
        reveal_strlit("N");
    }
    if e.len() - j > 4 && is_place_kw_exec(e[j].as_slice()) && eq_lit(e[j + 1].as_slice(), "(") && eq_lit(
        e[j + 4].as_slice(),
        ")",
    ) {
        let x = parse_i64(e[j + 2].as_slice());
        let y = parse_i64(e[j + 3].as_slice());
        match (x, y) {
            (Some(x), Some(y)) => {
                let o: Vec<char> = if e.len() - j > 5 {
                    e[j + 5].clone()
                } else {
                    let mut v: Vec<char> = Vec::new();
                    v.push('N');
                    assert(v@ =~= "N"@);
                    v
                };
                assert(o@ == (if j + 5 < e@.len() { seqs(e@)[j + 5] } else { "N"@ }));
                Some((x, y, o))
            },
            _ => None,
        }
    } else {
        None
    }
}

fn orient_exec(o: &[char], px: i64, py: i64, x: i64, y: i64) -> (r: (i128, i128))
    ensures
        (r.0 as int, r.1 as int) == orient(o@, px as int, py as int, x as int, y as int),
{
    let (px, py, x, y) = (px as i128, py as i128, x as i128, y as i128);
    if eq_lit(o, "S") {
        (px - x, py - y)
    } else if eq_lit(o, "W") {
        (px - y, py + x)
    } else if eq_lit(o, "E") {
        (px + y, py - x)
    } else if eq_lit(o, "FN") {
        (px - x, py + y)
    } else if eq_lit(o, "FS") {
        (px + x, py - y)
    } else if eq_lit(o, "FW") {
        (px - y, py - x)
    } else if eq_lit(o, "FE") {
        (px + y, py + x)
    } else {
        (px + x, py + y)
    }
}

fn fits_exec(v: i128) -> (b: bool)
    ensures
        b == fits64(v as int),
{
    -0x8000_0000_0000_0000i128 <= v && v <= 0x7fff_ffff_ffff_ffffi128
}

fn place_all_exec(rs: &Vec<(Vec<char>, i64, i64, i64, i64)>, px: i64, py: i64, o: &[char], out: &mut Vec<PinShape>)
    ensures
        final(out)@.map_values(|s: PinShape| s@) == old(out)@.map_values(|s: PinShape| s@) + place_all(
            rs@.map_values(|r: (Vec<char>, i64, i64, i64, i64)| rect_view(r)),
            (px as int, py as int, o@),
        ),
{
    let ghost rv = rs@.map_values(|r: (Vec<char>, i64, i64, i64, i64)| rect_view(r));
    let ghost pl = (px as int, py as int, o@);
    let ghost o0 = old(out)@.map_values(|s: PinShape| s@);
    let mut k: usize = 0;
    assert(place_all(rv.take(0), pl) =~= Seq::<ShapeV>::empty());
    assert(o0 + place_all(rv.take(0), pl) =~= o0);
    while k < rs.len()
        invariant
            k <= rs@.len(),
            rv == rs@.map_values(|r: (Vec<char>, i64, i64, i64, i64)| rect_view(r)),
            pl == (px as int, py as int, o@),
            out@.map_values(|s: PinShape| s@) == o0 + place_all(rv.take(k as int), pl),
        decreases rs.len() - k,
    {
        assert(rv.take(k + 1).drop_last() =~= rv.take(k as int));
        let r = &rs[k];
        let a = orient_exec(o, px, py, r.1, r.2);
        let b = orient_exec(o, px, py, r.3, r.4);
        if fits_exec(a.0) && fits_exec(a.1) && fits_exec(b.0) && fits_exec(b.1) {
            let (x1, x2) = if a.0 <= b.0 { (a.0, b.0) } else { (b.0, a.0) };
            let (y1, y2) = if a.1 <= b.1 { (a.1, b.1) } else { (b.1, a.1) };
            out.push(PinShape { layer: string_of(r.0.as_slice()), x1: x1 as i64, y1: y1 as i64, x2: x2 as i64, y2: y2 as i64 });
        }
        assert(out@.map_values(|s: PinShape| s@) =~= o0 + place_all(rv.take(k + 1), pl));
        k += 1;
    }
    assert(rv.take(k as int) =~= rv);
}

/// The pins of a DEF's words (see `spec_pins`).
pub fn read_pins(toks: &[Vec<char>]) -> (r: Vec<Pin>)
    ensures
        r@.map_values(|p: Pin| p@) == spec_pins(seqs(toks@)),
{
    proof {
        reveal_strlit("N");
    }
    let body = section_exec(toks, "PINS");
    let es = entries_exec(&body);
    let ghost ev = entries_view(es@);
    let mut r: Vec<Pin> = Vec::new();
    let mut k: usize = 0;
    while k < es.len()
        invariant
            k <= es@.len(),
            ev == entries_view(es@),
            r@.map_values(|p: Pin| p@) == pins_of(ev.take(k as int)),
        decreases es.len() - k,
    {
        assert(ev.take(k + 1).drop_last() =~= ev.take(k as int));
        assert(ev.take(k + 1).last() == seqs(es@[k as int]@));
        let e = &es[k];
        let ghost ex = seqs(e@);
        if e.len() >= 1 {
            let mut pend: Vec<(Vec<char>, i64, i64, i64, i64)> = Vec::new();
            let mut done: Vec<PinShape> = Vec::new();
            let mut j: usize = 0;
            while j < e.len()
                invariant
                    j <= e@.len(),
                    ex == seqs(e@),
                    (pend@.map_values(|r: (Vec<char>, i64, i64, i64, i64)| rect_view(r)), done@.map_values(
                        |s: PinShape| s@,
                    )) == pin_scan(ex, j as int),
                decreases e.len() - j,
            {
                match rect_at_exec(e, j) {
                    Some(x) => {
                        pend.push(x);
                    },
                    None => match placement_at_exec(e, j) {
                        Some(pl) => {
                            place_all_exec(&pend, pl.0, pl.1, pl.2.as_slice(), &mut done);
                            pend = Vec::new();
                        },
                        None => {},
                    },
                }
                proof {
                    let (p0, d0) = pin_scan(ex, j as int);
                    assert(pend@.map_values(|r: (Vec<char>, i64, i64, i64, i64)| rect_view(r)) =~= pin_scan(
                        ex,
                        j + 1,
                    ).0);
                }
                j += 1;
            }
            let mut nv: Vec<char> = Vec::new();
            nv.push('N');
            proof {
                reveal_strlit("N");
            }
            assert(nv@ =~= "N"@);
            let ghost (p1, d1) = pin_scan(ex, ex.len() as int);
            place_all_exec(&pend, 0, 0, nv.as_slice(), &mut done);
            assert(done@.map_values(|s: PinShape| s@) == pin_shapes_of(ex));
            let net = after_word_exec(e, "NET");
            let pw = has_pair_exec(e, "USE", "POWER");
            let gd = has_pair_exec(e, "USE", "GROUND");
            let pin = Pin { name: string_of(e[0].as_slice()), net: string_of(net.as_slice()), use_power: pw, use_ground: gd, shapes: done };
            assert(pin_of(ex) == Some(pin@));
            r.push(pin);
        }
        assert(r@.map_values(|p: Pin| p@) =~= pins_of(ev.take(k + 1)));
        k += 1;
    }
    assert(ev.take(k as int) =~= ev);
    r
}

proof fn lemma_first_place_is(e: Entry, i: int, j: int)
    requires
        0 <= i <= j < e.len(),
        place_at(e, j) is Some,
        forall|k: int| i <= k < j ==> place_at(e, k) is None,
    ensures
        first_place(e, i) == place_at(e, j),
    decreases j - i,
{
    if i < j {
        lemma_first_place_is(e, i + 1, j);
    }
}

proof fn lemma_first_layers_is(e: Entry, i: int, j: int)
    requires
        0 <= i <= j < e.len(),
        layers_at(e, j) is Some,
        forall|k: int| i <= k < j ==> layers_at(e, k) is None,
    ensures
        first_layers(e, i) == layers_at(e, j),
    decreases j - i,
{
    if i < j {
        lemma_first_layers_is(e, i + 1, j);
    }
}

proof fn lemma_first_rowcol_is(e: Entry, i: int, j: int)
    requires
        0 <= i <= j <= e.len(),
        j < e.len() ==> rowcol_at(e, j) is Some,
        forall|k: int| i <= k < j ==> rowcol_at(e, k) is None,
    ensures
        first_rowcol(e, i) == (if j < e.len() { rowcol_at(e, j) } else { None }),
    decreases j - i,
{
    if i < j {
        lemma_first_rowcol_is(e, i + 1, j);
    }
}

/// A component entry `<name> <cell> ... PLACED ( x y ) ...` (or `FIXED`, `COVER`) whose
/// first placement stands at index `j` places instance `name`, of cell `cell`, at
/// `(x, y)`: the first word is the instance, the second its cell, and the origin is
/// read `x` then `y`.
pub proof fn lemma_component_entry_names_cell_and_origin(e: Entry, j: int, x: i64, y: i64)
    requires
        2 <= j,
        j + 3 < e.len(),
        is_place_kw(e[j]),
        e[j + 1] == "("@,
        spec_parse_i64(e[j + 2]) == Some(x),
        spec_parse_i64(e[j + 3]) == Some(y),
        forall|i: int| 2 <= i < j ==> place_at(e, i) is None,
    ensures
        comp_of(e) == Some(CompV { name: e[0], cell: e[1], x, y }),
{
    lemma_first_place_is(e, 2, j);
}

/// A via entry `<name> ... LAYERS <below> <cut> <above> ...` whose first `LAYERS` stands
/// at index `j` defines via `name` joining `below` (first) and `above` (third) through
/// the cut layer (second). Its cut count is `r · c` for its first `ROWCOL r c` (when
/// that fits a `u64`), and one when it has no `ROWCOL`.
pub proof fn lemma_via_entry_layers_and_cuts(e: Entry, j: int, k: int, r: i64, c: i64)
    requires
        1 <= j,
        j + 3 < e.len(),
        e[j] == "LAYERS"@,
        forall|i: int| 1 <= i < j ==> layers_at(e, i) is None,
    ensures
        via_of(e) is Some,
        ({
            let v = via_of(e)->0;
            &&& v.0 == e[0]
            &&& v.1.below == e[j + 1]
            &&& v.1.cut_layer == e[j + 2]
            &&& v.1.above == e[j + 3]
        }),
        (1 <= k && k + 2 < e.len() && e[k] == "ROWCOL"@ && spec_parse_i64(e[k + 1]) == Some(r) && spec_parse_i64(
            e[k + 2],
        ) == Some(c) && r >= 0 && c >= 0 && r * c <= u64::MAX && forall|i: int|
            1 <= i < k ==> rowcol_at(e, i) is None) ==> (via_of(e)->0).1.cuts == r * c,
        (forall|i: int| 1 <= i < e.len() ==> rowcol_at(e, i) is None) ==> (via_of(e)->0).1.cuts == 1,
{
    lemma_first_layers_is(e, 1, j);
    if 1 <= k && k + 2 < e.len() && e[k] == "ROWCOL"@ && spec_parse_i64(e[k + 1]) == Some(r) && spec_parse_i64(
        e[k + 2],
    ) == Some(c) && r >= 0 && c >= 0 && r * c <= u64::MAX && forall|i: int| 1 <= i < k ==> rowcol_at(e, i) is None {
        lemma_first_rowcol_is(e, 1, k);
    }
    if forall|i: int| 1 <= i < e.len() ==> rowcol_at(e, i) is None {
        lemma_first_rowcol_is(e, 1, e.len() as int);
    }
}

pub open spec fn abs_i(v: int) -> int {
    if v < 0 { -v } else { v }
}

/// The orientations that turn a shape by a quarter: `W`, `E`, `FW`, `FE`.
pub open spec fn turns_quarter(o: Seq<char>) -> bool {
    o == "W"@ || o == "E"@ || o == "FW"@ || o == "FE"@
}

/// Placing a pin rectangle moves it rigidly: the pin's own origin lands on the
/// placement point whatever the orientation, and the placed shape keeps the layer and
/// has the written width and height, exchanged for the quarter-turn orientations.
pub proof fn lemma_pin_placement_is_rigid(r: RectI, pl: (int, int, Seq<char>))
    ensures
        orient(pl.2, pl.0, pl.1, 0, 0) == (pl.0, pl.1),
        place_rect(r, pl) matches Some(s) ==> {
            &&& s.layer == r.0
            &&& s.x1 <= s.x2
            &&& s.y1 <= s.y2
            &&& s.x2 - s.x1 == (if turns_quarter(pl.2) { abs_i(r.4 - r.2) } else { abs_i(r.3 - r.1) })
            &&& s.y2 - s.y1 == (if turns_quarter(pl.2) { abs_i(r.3 - r.1) } else { abs_i(r.4 - r.2) })
        },
{
    reveal_strlit("S");
    reveal_strlit("W");
    reveal_strlit("E");
    reveal_strlit("FN");
    reveal_strlit("FS");
    reveal_strlit("FW");
    reveal_strlit("FE");
    assert("S"@.len() == 1 && "W"@.len() == 1 && "E"@.len() == 1);
    assert("FN"@.len() == 2 && "FS"@.len() == 2 && "FW"@.len() == 2 && "FE"@.len() == 2);
    assert("S"@[0] == 'S' && "W"@[0] == 'W' && "E"@[0] == 'E');
    assert("FN"@[1] == 'N' && "FS"@[1] == 'S' && "FW"@[1] == 'W' && "FE"@[1] == 'E');
}

proof fn lemma_has_pair_at(e: Entry, a: Seq<char>, b: Seq<char>, j: int, k: int)
    requires
        0 <= j <= k,
        k + 1 < e.len(),
        e[k] == a,
        e[k + 1] == b,
    ensures
        has_pair(e, a, b, j),
    decreases k - j,
{
    if j < k && !(e[j] == a && e[j + 1] == b) {
        lemma_has_pair_at(e, a, b, j + 1, k);
    }
}

proof fn lemma_has_pair_none(e: Entry, a: Seq<char>, b: Seq<char>, j: int)
    requires
        0 <= j,
        forall|k: int| j <= k && k + 1 < e.len() ==> !(#[trigger] e[k] == a && e[k + 1] == b),
    ensures
        !has_pair(e, a, b, j),
    decreases e.len() - j,
{
    if j + 1 < e.len() {
        lemma_has_pair_none(e, a, b, j + 1);
    }
}

proof fn lemma_after_word_first(e: Entry, a: Seq<char>, j: int, k: int)
    requires
        0 <= j <= k,
        k + 1 < e.len(),
        e[k] == a,
        forall|i: int| j <= i < k ==> e[i] != a,
    ensures
        after_word(e, a, j) == e[k + 1],
    decreases k - j,
{
    if j < k {
        lemma_after_word_first(e, a, j + 1, k);
    }
}

/// A pin entry `- <name> + NET <net> ... + USE POWER ...` names the pin by its first
/// word and its net by the word after its first `NET`; `USE POWER` makes it a power
/// pin and `USE GROUND` a ground pin, and without `USE GROUND` it is no ground pin
/// (nor a power pin without `USE POWER`).
pub proof fn lemma_pin_entry_fields(e: Entry, n: int, u: int)
    requires
        e.len() >= 1,
    ensures
        pin_of(e) is Some,
        (pin_of(e)->0).name == e[0],
        (1 <= n && n + 1 < e.len() && e[n] == "NET"@ && forall|i: int| 1 <= i < n ==> e[i] != "NET"@) ==> (pin_of(
            e,
        )->0).net == e[n + 1],
        (1 <= u && u + 1 < e.len() && e[u] == "USE"@ && e[u + 1] == "POWER"@) ==> (pin_of(e)->0).use_power,
        (1 <= u && u + 1 < e.len() && e[u] == "USE"@ && e[u + 1] == "GROUND"@) ==> (pin_of(e)->0).use_ground,
        (forall|k: int| 1 <= k && k + 1 < e.len() ==> !(#[trigger] e[k] == "USE"@ && e[k + 1] == "GROUND"@)) ==> !(pin_of(
            e,
        )->0).use_ground,
        (forall|k: int| 1 <= k && k + 1 < e.len() ==> !(#[trigger] e[k] == "USE"@ && e[k + 1] == "POWER"@)) ==> !(pin_of(
            e,
        )->0).use_power,
{
    if 1 <= n && n + 1 < e.len() && e[n] == "NET"@ && forall|i: int| 1 <= i < n ==> e[i] != "NET"@ {
        lemma_after_word_first(e, "NET"@, 1, n);
    }
    if 1 <= u && u + 1 < e.len() && e[u] == "USE"@ && e[u + 1] == "POWER"@ {
        lemma_has_pair_at(e, "USE"@, "POWER"@, 1, u);
    }
    if 1 <= u && u + 1 < e.len() && e[u] == "USE"@ && e[u + 1] == "GROUND"@ {
        lemma_has_pair_at(e, "USE"@, "GROUND"@, 1, u);
    }
    if forall|k: int| 1 <= k && k + 1 < e.len() ==> !(#[trigger] e[k] == "USE"@ && e[k + 1] == "GROUND"@) {
        lemma_has_pair_none(e, "USE"@, "GROUND"@, 1);
    }
    if forall|k: int| 1 <= k && k + 1 < e.len() ==> !(#[trigger] e[k] == "USE"@ && e[k + 1] == "POWER"@) {
        lemma_has_pair_none(e, "USE"@, "POWER"@, 1);
    }
}

} // verus!
