//! Tech-LEF reader: the per-layer electrical attributes PDN extraction needs.
//!
//! ```text
//! LAYER met5
//!   TYPE ROUTING ;
//!   RESISTANCE RPERSQ 0.0285 ;   # sheet resistance, ohm/square
//!   WIDTH 1.6 ;                   # default routing width, microns
//!   DCCURRENTDENSITY AVERAGE 2.0 ;
//! END met5
//! LAYER via4
//!   TYPE CUT ;
//!   RESISTANCE 0.38 ;            # per cut
//! END via4
//! ```
//!
//! Values are kept as number tokens (each a valid floating-point literal); an
//! attribute that is absent, or whose value is not a number, reads as `0.0`.

use vstd::prelude::*;
use crate::num::{is_number, spec_is_number};
use crate::text::{
    chars_of, find_char, lemma_first_index_of, lines_of, seqs, spec_lines, spec_strip_comment,
    spec_trim, spec_words, string_of, trim, trim_end, trim_end_char, words_of, eq_lit,
};

verus! {

broadcast use {vstd::string::group_string_axioms, crate::text::lemma_map_push};

/// The attributes of one layer (number tokens).
#[derive(Debug, Clone)]
pub struct LayerR {
    pub rpersq: String,
    pub width_um: String,
    pub dc_jmax: String,
    pub ac_rms: String,
    pub ac_peak: String,
    /// A cut layer's resistance per cut (`RESISTANCE <ohms> ;`).
    pub cut_res: String,
}

/// The layers of a tech LEF, in the order their blocks close; when a layer closes
/// twice the later block is the one that counts.
#[derive(Debug, Clone)]
pub struct TechLef {
    pub layers: Vec<(String, LayerR)>,
}

/// A LEF-reading error; the text is the reason.
#[derive(Debug, Clone)]
pub struct LefError(pub String);

pub struct LayerV {
    pub rpersq: Seq<char>,
    pub width_um: Seq<char>,
    pub dc_jmax: Seq<char>,
    pub ac_rms: Seq<char>,
    pub ac_peak: Seq<char>,
    pub cut_res: Seq<char>,
}

impl View for LayerR {
    type V = LayerV;

    open spec fn view(&self) -> LayerV {
        LayerV {
            rpersq: self.rpersq@,
            width_um: self.width_um@,
            dc_jmax: self.dc_jmax@,
            ac_rms: self.ac_rms@,
            ac_peak: self.ac_peak@,
            cut_res: self.cut_res@,
        }
    }
}

pub open spec fn default_layer() -> LayerV {
    LayerV { rpersq: "0.0"@, width_um: "0.0"@, dc_jmax: "0.0"@, ac_rms: "0.0"@, ac_peak: "0.0"@, cut_res: "0.0"@ }
}

pub open spec fn entry_view(e: (String, LayerR)) -> (Seq<char>, LayerV) {
    (e.0@, e.1@)
}

pub open spec fn entries_view(v: Seq<(String, LayerR)>) -> Seq<(Seq<char>, LayerV)> {
    v.map_values(|e: (String, LayerR)| entry_view(e))
}

/// The value token `t` gives an attribute that was `old`: `t` without trailing `;`
/// when that is a number, else `old` unchanged.
pub open spec fn update(old: Seq<char>, t: Seq<char>) -> Seq<char> {
    if spec_is_number(trim_end_char(t, ';')) {
        trim_end_char(t, ';')
    } else {
        old
    }
}

/// An attribute line applied to the open layer.
pub open spec fn attr_line(l: LayerV, t: Seq<Seq<char>>) -> LayerV {
    if t.len() >= 3 && t[0] == "RESISTANCE"@ && t[1] == "RPERSQ"@ {
        LayerV { rpersq: update(l.rpersq, t[2]), ..l }
    } else if t.len() >= 2 && t[0] == "RESISTANCE"@ && t[1] != "RPERSQ"@ {
        LayerV { cut_res: update(l.cut_res, t[1]), ..l }
    } else if t.len() >= 2 && t[0] == "WIDTH"@ {
        LayerV { width_um: update(l.width_um, t[1]), ..l }
    } else if t.len() >= 3 && t[0] == "DCCURRENTDENSITY"@ && t[1] == "AVERAGE"@ {
        LayerV { dc_jmax: update(l.dc_jmax, t[2]), ..l }
    } else if t.len() >= 3 && t[0] == "ACCURRENTDENSITY"@ && t[1] == "RMS"@ {
        LayerV { ac_rms: update(l.ac_rms, t[2]), ..l }
    } else if t.len() >= 3 && t[0] == "ACCURRENTDENSITY"@ && t[1] == "PEAK"@ {
        LayerV { ac_peak: update(l.ac_peak, t[2]), ..l }
    } else {
        l
    }
}

/// Reader state: the closed layers, and the layer block still open.
pub type LefState = (Seq<(Seq<char>, LayerV)>, Option<(Seq<char>, LayerV)>);

/// Whether an `END name` line closes the open layer block.
pub open spec fn closes(cur: Option<(Seq<char>, LayerV)>, name: Seq<char>) -> bool {
    match cur {
        Some(c) => c.0 == name,
        None => false,
    }
}

/// One LEF line (its words) applied to the reader's state.
pub open spec fn lef_line(st: LefState, t: Seq<Seq<char>>) -> LefState {
    if t.len() == 0 {
        st
    } else if t.len() >= 2 && t[0] == "LAYER"@ {
        (st.0, Some((t[1], default_layer())))
    } else if t.len() == 2 && t[0] == "END"@ && closes(st.1, t[1]) {
        (st.0.push(st.1->0), None)
    } else {
        match st.1 {
            Some((n, l)) => (st.0, Some((n, attr_line(l, t)))),
            None => st,
        }
    }
}

/// The words of a LEF line: the part before `#`, trimmed, split at white space.
pub open spec fn lef_words(raw: Seq<char>) -> Seq<Seq<char>> {
    spec_words(spec_trim(spec_strip_comment(raw)))
}

pub open spec fn lef_lines(lines: Seq<Seq<char>>) -> LefState
    decreases lines.len(),
{
    if lines.len() == 0 {
        (seq![], None)
    } else {
        lef_line(lef_lines(lines.drop_last()), lef_words(lines.last()))
    }
}

/// The layers a LEF text declares.
pub open spec fn spec_lef(text: Seq<char>) -> Seq<(Seq<char>, LayerV)> {
    lef_lines(spec_lines(text)).0
}

/// The attributes of the layer named `name`: its last closed block.
pub open spec fn layer_lookup(ls: Seq<(Seq<char>, LayerV)>, name: Seq<char>) -> Option<LayerV>
    decreases ls.len(),
{
    if ls.len() == 0 {
        None
    } else if ls.last().0 == name {
        Some(ls.last().1)
    } else {
        layer_lookup(ls.drop_last(), name)
    }
}

fn update_exec(val: &mut String, t: &Vec<char>)
    ensures
        final(val)@ == update(old(val)@, t@),
{
    let v = trim_end(t.as_slice(), ';');
    if is_number(v) {
        *val = string_of(v);
    }
}

fn attr_exec(l: &mut LayerR, t: &Vec<Vec<char>>)
    ensures
        final(l)@ == attr_line(old(l)@, seqs(t@)),
{
    let n = t.len();
    if n >= 3 && eq_lit(t[0].as_slice(), "RESISTANCE") && eq_lit(t[1].as_slice(), "RPERSQ") {
        update_exec(&mut l.rpersq, &t[2]);
    } else if n >= 2 && eq_lit(t[0].as_slice(), "RESISTANCE") && !eq_lit(t[1].as_slice(), "RPERSQ") {
        update_exec(&mut l.cut_res, &t[1]);
    } else if n >= 2 && eq_lit(t[0].as_slice(), "WIDTH") {
        update_exec(&mut l.width_um, &t[1]);
    } else if n >= 3 && eq_lit(t[0].as_slice(), "DCCURRENTDENSITY") && eq_lit(
        t[1].as_slice(),
        "AVERAGE",
    ) {
        update_exec(&mut l.dc_jmax, &t[2]);
    } else if n >= 3 && eq_lit(t[0].as_slice(), "ACCURRENTDENSITY") && eq_lit(t[1].as_slice(), "RMS") {
        update_exec(&mut l.ac_rms, &t[2]);
    } else if n >= 3 && eq_lit(t[0].as_slice(), "ACCURRENTDENSITY") && eq_lit(
        t[1].as_slice(),
        "PEAK",
    ) {
        update_exec(&mut l.ac_peak, &t[2]);
    }
}

fn new_layer() -> (l: LayerR)
    ensures
        l@ == default_layer(),
{
    LayerR {
        rpersq: "0.0".to_string(),
        width_um: "0.0".to_string(),
        dc_jmax: "0.0".to_string(),
        ac_rms: "0.0".to_string(),
        ac_peak: "0.0".to_string(),
        cut_res: "0.0".to_string(),
    }
}

pub open spec fn cur_view(c: Option<(String, LayerR)>) -> Option<(Seq<char>, LayerV)> {
    match c {
        Some(e) => Some(entry_view(e)),
        None => None,
    }
}

fn lef_line_exec(done: &mut Vec<(String, LayerR)>, cur: &mut Option<(String, LayerR)>, t: &Vec<Vec<char>>)
    ensures
        (entries_view(final(done)@), cur_view(*final(cur))) == lef_line(
            (entries_view(old(done)@), cur_view(*old(cur))),
            seqs(t@),
        ),
{
    if t.len() == 0 {
        return;
    }
    if t.len() >= 2 && eq_lit(t[0].as_slice(), "LAYER") {
        *cur = Some((string_of(t[1].as_slice()), new_layer()));
        return;
    }
    if t.len() == 2 && eq_lit(t[0].as_slice(), "END") {
        let same = match cur {
            Some((n, _)) => {
                let nc = chars_of(n.as_str());
                same_chars(nc.as_slice(), t[1].as_slice())
            },
            None => false,
        };
        if same {
            let c = cur.take();
            match c {
                Some(e) => done.push(e),
                None => {},
            }
            return;
        }
    }
    match cur {
        Some((_, l)) => attr_exec(l, t),
        None => {},
    }
}

/// Whether two character sequences are equal.
pub fn same_chars(a: &[char], b: &[char]) -> (r: bool)
    ensures
        r == (a@ == b@),
{
    if a.len() != b.len() {
        return false;
    }
    let mut i: usize = 0;
    while i < a.len()
        invariant
            i <= a@.len(),
            a@.len() == b@.len(),
            forall|j: int| 0 <= j < i ==> a@[j] == b@[j],
        decreases a.len() - i,
    {
        if a[i] != b[i] {
            assert(a@[i as int] != b@[i as int]);
            return false;
        }
        i += 1;
    }
    assert(a@ =~= b@);
    true
}

impl TechLef {
    /// Reads a tech LEF (see `spec_lef`); a file with no closed layer block is refused.
    pub fn parse(text: &str) -> (r: Result<TechLef, LefError>)
        ensures
            match r {
                Ok(lef) => entries_view(lef.layers@) == spec_lef(text@) && spec_lef(text@).len() > 0,
                Err(e) => spec_lef(text@).len() == 0 && e.0@ == "no LAYER blocks found"@,
            },
    {
        let chars = chars_of(text);
        let lines = lines_of(chars.as_slice());
        let ghost ls = seqs(lines@);
        let mut done: Vec<(String, LayerR)> = Vec::new();
        let mut cur: Option<(String, LayerR)> = None;
        let mut i: usize = 0;
        while i < lines.len()
            invariant
                i <= lines@.len(),
                ls == seqs(lines@),
                (entries_view(done@), cur_view(cur)) == lef_lines(ls.take(i as int)),
            decreases lines.len() - i,
        {
            assert(ls.take(i + 1).drop_last() =~= ls.take(i as int));
            assert(ls.take(i + 1).last() == lines@[i as int]@);
            let k = find_char(lines[i].as_slice(), '#');
            proof {
                lemma_first_index_of(lines@[i as int]@, '#');
            }
            let (head, _) = lines[i].as_slice().split_at(k);
            let tr = trim(head);
            let words = words_of(tr.as_slice());
            lef_line_exec(&mut done, &mut cur, &words);
            i += 1;
        }
        assert(ls.take(i as int) =~= ls);
        if done.len() == 0 {
            return Err(LefError("no LAYER blocks found".to_string()));
        }
        Ok(TechLef { layers: done })
    }

    /// The attributes of the layer named `name` (its last closed block).
    pub fn layer(&self, name: &str) -> (r: Option<&LayerR>)
        ensures
            match r {
                Some(l) => layer_lookup(entries_view(self.layers@), name@) == Some(l@),
                None => layer_lookup(entries_view(self.layers@), name@) is None,
            },
    {
        let ghost es = entries_view(self.layers@);
        let nc = chars_of(name);
        let mut i = self.layers.len();
        assert(es.take(i as int) =~= es);
        while i > 0
            invariant
                i <= self.layers@.len(),
                es == entries_view(self.layers@),
                nc@ == name@,
                layer_lookup(es, name@) == layer_lookup(es.take(i as int), name@),
            decreases i,
        {
            assert(es.take(i as int).drop_last() =~= es.take(i - 1));
            let e = &self.layers[i - 1];
            if same_chars(chars_of(e.0.as_str()).as_slice(), nc.as_slice()) {
                return Some(&e.1);
            }
            i -= 1;
        }
        None
    }
}


impl LefError {
    /// The error as text: `lef error: <reason>`.
    pub fn message(&self) -> (s: String)
        ensures
            s@ == "lef error: "@ + self.0@,
    {
        let mut out: Vec<char> = Vec::new();
        crate::text::push_str(&mut out, "lef error: ");
        crate::text::push_chars(&mut out, chars_of(self.0.as_str()).as_slice());
        string_of(out.as_slice())
    }
}

/// Every attribute of a layer is a number token.
pub open spec fn layer_numeric(l: LayerV) -> bool {
    &&& spec_is_number(l.rpersq)
    &&& spec_is_number(l.width_um)
    &&& spec_is_number(l.dc_jmax)
    &&& spec_is_number(l.ac_rms)
    &&& spec_is_number(l.ac_peak)
    &&& spec_is_number(l.cut_res)
}

pub open spec fn state_numeric(st: LefState) -> bool {
    &&& forall|i: int| 0 <= i < st.0.len() ==> layer_numeric((#[trigger] st.0[i]).1)
    &&& (st.1 matches Some(c) ==> layer_numeric(c.1))
}

proof fn lemma_default_layer_numeric()
    ensures
        layer_numeric(default_layer()),
{
    reveal_strlit("0.0");
    crate::num::lemma_plain_decimal_is_number(seq!['0'], seq!['0']);
    assert(seq!['0'] + seq!['.'] + seq!['0'] =~= "0.0"@);
}

proof fn lemma_lines_numeric(lines: Seq<Seq<char>>)
    ensures
        state_numeric(lef_lines(lines)),
    decreases lines.len(),
{
    if lines.len() > 0 {
        lemma_lines_numeric(lines.drop_last());
        lemma_default_layer_numeric();
        let st = lef_lines(lines.drop_last());
        let st2 = lef_lines(lines);
        assert forall|i: int| 0 <= i < st2.0.len() implies layer_numeric((#[trigger] st2.0[i]).1) by {
            if i < st.0.len() {
                assert(st2.0[i] == st.0[i]);
            }
        }
    }
}

/// Every attribute of every layer a LEF declares is a number token: a value that is
/// not a number leaves the attribute as it was, and attributes start at `0.0`.
pub proof fn lemma_lef_values_are_numbers(text: Seq<char>)
    ensures
        forall|i: int| 0 <= i < spec_lef(text).len() ==> layer_numeric((#[trigger] spec_lef(text)[i]).1),
{
    lemma_lines_numeric(spec_lines(text));
}

/// `t[k]` without trailing `;`, when that is a number.
pub open spec fn value_word(t: Seq<Seq<char>>, k: int) -> bool {
    k < t.len() && spec_is_number(trim_end_char(t[k], ';'))
}

/// Inside an open layer block, each attribute line sets its own attribute, to the
/// value written on it (without a trailing `;`), and leaves every other attribute and
/// the closed layers as they were: `RESISTANCE RPERSQ v` the sheet resistance,
/// `WIDTH v` the width, `DCCURRENTDENSITY AVERAGE v` the DC limit,
/// `ACCURRENTDENSITY RMS v` the RMS limit, `ACCURRENTDENSITY PEAK v` the peak limit,
/// `RESISTANCE v` the per-cut resistance.
pub proof fn lemma_lef_attribute_lines_set_their_own_attribute(
    done: Seq<(Seq<char>, LayerV)>,
    n: Seq<char>,
    l: LayerV,
    t: Seq<Seq<char>>,
)
    ensures
        ({
            let r = lef_line((done, Some((n, l))), t);
            &&& (t.len() >= 3 && t[0] == "RESISTANCE"@ && t[1] == "RPERSQ"@ && value_word(t, 2)) ==> r == (
                done,
                Some((n, LayerV { rpersq: trim_end_char(t[2], ';'), ..l })),
            )
            &&& (t.len() >= 2 && t[0] == "WIDTH"@ && value_word(t, 1)) ==> r == (
                done,
                Some((n, LayerV { width_um: trim_end_char(t[1], ';'), ..l })),
            )
            &&& (t.len() >= 3 && t[0] == "DCCURRENTDENSITY"@ && t[1] == "AVERAGE"@ && value_word(t, 2)) ==> r == (
                done,
                Some((n, LayerV { dc_jmax: trim_end_char(t[2], ';'), ..l })),
            )
            &&& (t.len() >= 3 && t[0] == "ACCURRENTDENSITY"@ && t[1] == "RMS"@ && value_word(t, 2)) ==> r == (
                done,
                Some((n, LayerV { ac_rms: trim_end_char(t[2], ';'), ..l })),
            )
            &&& (t.len() >= 3 && t[0] == "ACCURRENTDENSITY"@ && t[1] == "PEAK"@ && value_word(t, 2)) ==> r == (
                done,
                Some((n, LayerV { ac_peak: trim_end_char(t[2], ';'), ..l })),
            )
            &&& (t.len() >= 2 && t[0] == "RESISTANCE"@ && t[1] != "RPERSQ"@ && value_word(t, 1)) ==> r == (
                done,
                Some((n, LayerV { cut_res: trim_end_char(t[1], ';'), ..l })),
            )
        }),
{
    reveal_strlit("LAYER");
    reveal_strlit("END");
    reveal_strlit("RESISTANCE");
    reveal_strlit("WIDTH");
    reveal_strlit("DCCURRENTDENSITY");
    reveal_strlit("ACCURRENTDENSITY");
    assert("LAYER"@.len() == 5 && "END"@.len() == 3 && "RESISTANCE"@.len() == 10 && "WIDTH"@.len() == 5);
    assert("DCCURRENTDENSITY"@.len() == 16 && "ACCURRENTDENSITY"@.len() == 16);
    assert("LAYER"@[0] == 'L' && "WIDTH"@[0] == 'W');
    reveal_strlit("RPERSQ");
    reveal_strlit("RMS");
    reveal_strlit("PEAK");
    reveal_strlit("AVERAGE");
    assert("RMS"@.len() == 3 && "PEAK"@.len() == 4);
}

proof fn lemma_layer_lookup_found(ls: Seq<(Seq<char>, LayerV)>, name: Seq<char>)
    ensures
        layer_lookup(ls, name) is None <==> forall|k: int| 0 <= k < ls.len() ==> (#[trigger] ls[k]).0 != name,
    decreases ls.len(),
{
    if ls.len() > 0 {
        let d = ls.drop_last();
        lemma_layer_lookup_found(d, name);
        if ls.last().0 == name {
            assert(ls[ls.len() - 1].0 == name);
        } else if layer_lookup(d, name) is None {
            assert forall|k: int| 0 <= k < ls.len() implies (#[trigger] ls[k]).0 != name by {
                if k < d.len() {
                    assert(d[k] == ls[k]);
                }
            }
        } else {
            let k = choose|k: int| 0 <= k < d.len() && (#[trigger] d[k]).0 == name;
            assert(ls[k] == d[k]);
        }
    }
}

proof fn lemma_layer_lookup_last(ls: Seq<(Seq<char>, LayerV)>, name: Seq<char>, k: int)
    requires
        0 <= k < ls.len(),
        ls[k].0 == name,
        forall|j: int| k < j < ls.len() ==> (#[trigger] ls[j]).0 != name,
    ensures
        layer_lookup(ls, name) == Some(ls[k].1),
    decreases ls.len(),
{
    if k < ls.len() - 1 {
        let d = ls.drop_last();
        assert(ls[ls.len() - 1].0 != name);
        assert(d[k] == ls[k]);
        assert forall|j: int| k < j < d.len() implies (#[trigger] d[j]).0 != name by {
            assert(d[j] == ls[j]);
        }
        lemma_layer_lookup_last(d, name, k);
    }
}

/// Looking a layer up finds one exactly when a block of that name was closed, and then
/// gives the attributes of the block closed last.
pub proof fn lemma_layer_lookup_finds_the_last_block(ls: Seq<(Seq<char>, LayerV)>, name: Seq<char>)
    ensures
        layer_lookup(ls, name) is None <==> forall|k: int| 0 <= k < ls.len() ==> (#[trigger] ls[k]).0 != name,
        forall|k: int|
            0 <= k < ls.len() && (#[trigger] ls[k]).0 == name && (forall|j: int| k < j < ls.len() ==> ls[j].0 != name)
                ==> layer_lookup(ls, name) == Some(ls[k].1),
{
    lemma_layer_lookup_found(ls, name);
    assert forall|k: int|
        0 <= k < ls.len() && (#[trigger] ls[k]).0 == name && (forall|j: int| k < j < ls.len() ==> ls[j].0 != name)
            implies layer_lookup(ls, name) == Some(ls[k].1) by {
        lemma_layer_lookup_last(ls, name, k);
    }
}

/// `LAYER <n>` opens a block for layer `n` with every attribute at `0.0`, and keeps the
/// closed layers; `END <n>` for the open block `n` closes it, appending the layer with
/// the attributes read in its block; outside a block no other line changes anything.
pub proof fn lemma_lef_layer_blocks_open_and_close(st: LefState, t: Seq<Seq<char>>)
    ensures
        (t.len() >= 2 && t[0] == "LAYER"@) ==> lef_line(st, t) == (st.0, Some((t[1], default_layer()))),
        (t.len() == 2 && t[0] == "END"@ && st.1 is Some && (st.1->0).0 == t[1]) ==> lef_line(st, t) == (
            st.0.push(st.1->0),
            None::<(Seq<char>, LayerV)>,
        ),
        (st.1 is None && !(t.len() >= 2 && t[0] == "LAYER"@)) ==> lef_line(st, t) == st,
{
    reveal_strlit("LAYER");
    reveal_strlit("END");
    assert("LAYER"@.len() == 5 && "END"@.len() == 3);
}

// ---------------------------------------------------------------------------------
// Cell LEF: macro footprints.
// ---------------------------------------------------------------------------------

pub type CellSize = (Seq<char>, (Seq<char>, Seq<char>));

pub type CellState = (Seq<CellSize>, Option<(Seq<char>, Option<(Seq<char>, Seq<char>)>)>);

/// One cell-LEF line: `MACRO <name>` opens a macro, `SIZE <w> BY <h>` gives its
/// footprint (microns, both numbers), `END <name>` closes it and keeps it when it has
/// a footprint.
pub open spec fn cell_line(st: CellState, t: Seq<Seq<char>>) -> CellState {
    if t.len() >= 2 && t[0] == "MACRO"@ {
        (st.0, Some((t[1], None)))
    } else {
        match st.1 {
            Some((name, size)) => if t.len() >= 4 && t[0] == "SIZE"@ && t[2] == "BY"@ && spec_is_number(t[1])
                && spec_is_number(trim_end_char(t[3], ';')) {
                (st.0, Some((name, Some((t[1], trim_end_char(t[3], ';'))))))
            } else if t.len() == 2 && t[0] == "END"@ && name == t[1] {
                match size {
                    Some(sz) => (st.0.push((t[1], sz)), None),
                    None => (st.0, None),
                }
            } else {
                st
            },
            None => st,
        }
    }
}

pub open spec fn cell_lines(lines: Seq<Seq<char>>) -> CellState
    decreases lines.len(),
{
    if lines.len() == 0 {
        (seq![], None)
    } else {
        cell_line(cell_lines(lines.drop_last()), lef_words(lines.last()))
    }
}

/// The macro footprints of a cell LEF: name, width and height (micron tokens).
pub open spec fn spec_cell_sizes(text: Seq<char>) -> Seq<CellSize> {
    cell_lines(spec_lines(text)).0
}

pub open spec fn size_view(e: (String, (String, String))) -> CellSize {
    let (n, (w, h)) = e;
    (n@, (w@, h@))
}

/// Reads the macro footprints of a cell LEF (see `spec_cell_sizes`).
pub fn cell_sizes(text: &str) -> (r: Vec<(String, (String, String))>)
    ensures
        r@.map_values(|e: (String, (String, String))| size_view(e)) == spec_cell_sizes(text@),
{
    let chars = chars_of(text);
    let lines = lines_of(chars.as_slice());
    let ghost ls = seqs(lines@);
    let mut done: Vec<(String, (String, String))> = Vec::new();
    let mut cur: Option<(Vec<char>, Option<(Vec<char>, Vec<char>)>)> = None;
    let mut i: usize = 0;
    while i < lines.len()
        invariant
            i <= lines@.len(),
            ls == seqs(lines@),
            (done@.map_values(|e: (String, (String, String))| size_view(e)), match cur {
                Some(c) => Some((c.0@, match c.1 { Some(z) => Some((z.0@, z.1@)), None => None })),
                None => None,
            }) == cell_lines(ls.take(i as int)),
        decreases lines.len() - i,
    {
        assert(ls.take(i + 1).drop_last() =~= ls.take(i as int));
        assert(ls.take(i + 1).last() == lines@[i as int]@);
        let k = find_char(lines[i].as_slice(), '#');
        proof {
            lemma_first_index_of(lines@[i as int]@, '#');
        }
        let (head, _) = lines[i].as_slice().split_at(k);
        let tr = trim(head);
        let t = words_of(tr.as_slice());
        let n = t.len();
        if n >= 2 && eq_lit(t[0].as_slice(), "MACRO") {
            cur = Some((t[1].clone(), None));
        } else if n >= 4 && eq_lit(t[0].as_slice(), "SIZE") && eq_lit(t[2].as_slice(), "BY") && cur.is_some()
            && is_number(t[1].as_slice()) && is_number(trim_end(t[3].as_slice(), ';')) {
            let c = cur.take().unwrap();
            cur = Some((c.0, Some((t[1].clone(), crate::text::slice_to_vec(trim_end(t[3].as_slice(), ';'))))));
        } else if n == 2 && eq_lit(t[0].as_slice(), "END") && cur.is_some() && same_chars(
            cur.as_ref().unwrap().0.as_slice(),
            t[1].as_slice(),
        ) {
            let c = cur.take().unwrap();
            match c.1 {
                Some(z) => done.push((string_of(t[1].as_slice()), (string_of(z.0.as_slice()), string_of(z.1.as_slice())))),
                None => {},
            }
        }
        i += 1;
    }
    assert(ls.take(i as int) =~= ls);
    done
}

/// In a cell LEF, `MACRO <n>` opens macro `n` with no footprint yet; inside it
/// `SIZE <w> BY <h>` (both numbers) gives the footprint, width `w` then height `h`;
/// and `END <n>` closes it, recording `(n, (w, h))` when it has a footprint.
pub proof fn lemma_cell_footprints_read_width_then_height(st: CellState, t: Seq<Seq<char>>)
    ensures
        (t.len() >= 2 && t[0] == "MACRO"@) ==> cell_line(st, t) == (
            st.0,
            Some((t[1], None::<(Seq<char>, Seq<char>)>)),
        ),
        (st.1 is Some && t.len() >= 4 && t[0] == "SIZE"@ && t[2] == "BY"@ && spec_is_number(t[1])
            && spec_is_number(trim_end_char(t[3], ';'))) ==> cell_line(st, t) == (
            st.0,
            Some(((st.1->0).0, Some((t[1], trim_end_char(t[3], ';'))))),
        ),
        (st.1 is Some && t.len() == 2 && t[0] == "END"@ && (st.1->0).0 == t[1] && (st.1->0).1 is Some) ==> cell_line(
            st,
            t,
        ) == (st.0.push((t[1], ((st.1->0).1)->0)), None::<(Seq<char>, Option<(Seq<char>, Seq<char>)>)>),
{
    reveal_strlit("MACRO");
    reveal_strlit("SIZE");
    reveal_strlit("END");
    assert("MACRO"@.len() == 5 && "SIZE"@.len() == 4 && "END"@.len() == 3);
    assert("MACRO"@[0] == 'M' && "SIZE"@[0] == 'S');
}

} // verus!
