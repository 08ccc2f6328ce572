//! Power-distribution-network reader: the `.pdn` resistor-mesh format.
//!
//! ```text
//! vdd 1.8                   # nominal supply voltage
//! pad p1                    # supply pad, tied to vdd
//! pad p2 1.8                # ...or an explicit voltage
//! res p1 n1 0.05 met5       # resistor: nodeA nodeB ohms [layer]
//! via n1 m1 2.0             # a via resistance (layer = "via")
//! load n1 0.002             # static current drawn out of a node (amps)
//! emlimit met5 0.01         # per-layer EM current limit (amps/segment)
//! cap  n1 0.5               # node capacitance (pF)
//! switch n1 0.012 1.0 0.08  # switching event: node energy(pJ) t50(ns) [dur(ns)]
//! ```
//!
//! Numbers are kept as the tokens written in the file; every one of them has the
//! syntax of a floating-point literal. What reading them needs beyond syntax (a
//! resistance, a pulse width and the supply must be positive) is handed back as a
//! list of checks, in the order the file states them.

use vstd::prelude::*;
use crate::num::{is_number, spec_is_number};
use crate::text::{
    chars_of, debug_str, eq_lit, line_words, line_words_of, lines_of, push_chars, push_str, seqs,
    spec_debug_str, spec_lines, string_of,
};

verus! {

broadcast use {vstd::string::group_string_axioms, crate::text::lemma_map_push};

/// A resistor between two nodes: `r` is its resistance token (ohms).
#[derive(Debug, Clone)]
pub struct Resistor {
    pub a: String,
    pub b: String,
    pub r: String,
    pub layer: Option<String>,
}

/// A switching-current event at a node: energy (pJ), peak time and duration (ns).
#[derive(Debug, Clone)]
pub struct Switch {
    pub node: String,
    pub energy_pj: String,
    pub t50_ns: String,
    pub dur_ns: String,
}

/// The resistor network a `.pdn` file describes.
#[derive(Debug, Clone)]
pub struct PdnSpec {
    pub vdd: Option<String>,
    pub pads: Vec<(String, String)>,
    pub resistors: Vec<Resistor>,
    pub loads: Vec<(String, String)>,
    /// `emlimit` lines in file order; a later line for a layer overrides an earlier one.
    pub em_limits: Vec<(String, String)>,
    pub caps: Vec<(String, String)>,
    pub switches: Vec<Switch>,
}

/// A reading error; the text is the reason.
#[derive(Debug, Clone)]
pub struct PdnError(pub String);

/// A value that must be greater than zero, and the error to report when it is not.
#[derive(Debug, Clone)]
pub struct PositiveCheck {
    pub token: String,
    pub message: String,
}

/// The outcome of reading a `.pdn` text. The file is rejected with the message of the
/// first check whose value is not greater than zero; failing that, with `error`;
/// otherwise `spec` is the network.
#[derive(Debug, Clone)]
pub struct PdnParse {
    pub spec: PdnSpec,
    pub checks: Vec<PositiveCheck>,
    pub error: Option<PdnError>,
}

pub open spec fn opt_view(o: Option<String>) -> Option<Seq<char>> {
    match o {
        Some(s) => Some(s@),
        None => None,
    }
}

pub open spec fn pair_view(p: (String, String)) -> (Seq<char>, Seq<char>) {
    (p.0@, p.1@)
}

pub open spec fn pairs_view(v: Seq<(String, String)>) -> Seq<(Seq<char>, Seq<char>)> {
    v.map_values(|p: (String, String)| pair_view(p))
}

pub struct ResistorV {
    pub a: Seq<char>,
    pub b: Seq<char>,
    pub r: Seq<char>,
    pub layer: Option<Seq<char>>,
}

impl View for Resistor {
    type V = ResistorV;

    open spec fn view(&self) -> ResistorV {
        ResistorV { a: self.a@, b: self.b@, r: self.r@, layer: opt_view(self.layer) }
    }
}

pub struct SwitchV {
    pub node: Seq<char>,
    pub energy_pj: Seq<char>,
    pub t50_ns: Seq<char>,
    pub dur_ns: Seq<char>,
}

impl View for Switch {
    type V = SwitchV;

    open spec fn view(&self) -> SwitchV {
        SwitchV { node: self.node@, energy_pj: self.energy_pj@, t50_ns: self.t50_ns@, dur_ns: self.dur_ns@ }
    }
}

/// The reader's state after some lines: the network so far (pads with their optional
/// explicit voltage), the positivity checks so far, and the first error, if any.
pub struct PdnStateV {
    pub vdd: Option<Seq<char>>,
    pub pads: Seq<(Seq<char>, Option<Seq<char>>)>,
    pub resistors: Seq<ResistorV>,
    pub loads: Seq<(Seq<char>, Seq<char>)>,
    pub em_limits: Seq<(Seq<char>, Seq<char>)>,
    pub caps: Seq<(Seq<char>, Seq<char>)>,
    pub switches: Seq<SwitchV>,
    pub checks: Seq<(Seq<char>, Seq<char>)>,
    pub error: Option<Seq<char>>,
}

pub open spec fn init_state() -> PdnStateV {
    PdnStateV {
        vdd: None,
        pads: seq![],
        resistors: seq![],
        loads: seq![],
        em_limits: seq![],
        caps: seq![],
        switches: seq![],
        checks: seq![],
        error: None,
    }
}

pub open spec fn fail(st: PdnStateV, msg: Seq<char>) -> PdnStateV {
    PdnStateV { error: Some(msg), ..st }
}

/// `what: expected a number`
pub open spec fn num_msg(what: Seq<char>) -> Seq<char> {
    what + ": expected a number"@
}

/// The token at `i` when there is one and it is a number.
pub open spec fn num_at(t: Seq<Seq<char>>, i: int) -> Option<Seq<char>> {
    if i < t.len() && spec_is_number(t[i]) {
        Some(t[i])
    } else {
        None
    }
}

/// One line of a `.pdn` file, given its words, applied to the reader's state.
pub open spec fn pdn_line(st: PdnStateV, t: Seq<Seq<char>>) -> PdnStateV {
    if st.error is Some || t.len() == 0 {
        st
    } else {
        let k = t[0];
        if k == "vdd"@ {
            match num_at(t, 1) {
                Some(v) => PdnStateV { vdd: Some(v), ..st },
                None => fail(st, num_msg("vdd"@)),
            }
        } else if k == "pad"@ {
            if t.len() < 2 {
                fail(st, "pad needs a node"@)
            } else if t.len() >= 3 && !spec_is_number(t[2]) {
                fail(st, num_msg("pad voltage"@))
            } else {
                let v = if t.len() >= 3 { Some(t[2]) } else { None };
                PdnStateV { pads: st.pads.push((t[1], v)), ..st }
            }
        } else if k == "res"@ || k == "via"@ {
            if t.len() < 2 {
                fail(st, "res needs node a"@)
            } else if t.len() < 3 {
                fail(st, "res needs node b"@)
            } else {
                match num_at(t, 3) {
                    None => fail(st, num_msg("res ohms"@)),
                    Some(r) => {
                        let layer = if k == "via"@ {
                            Some("via"@)
                        } else if t.len() > 4 {
                            Some(t[4])
                        } else {
                            None
                        };
                        let msg = "res "@ + t[1] + "-"@ + t[2] + ": resistance must be > 0"@;
                        PdnStateV {
                            resistors: st.resistors.push(ResistorV { a: t[1], b: t[2], r, layer }),
                            checks: st.checks.push((r, msg)),
                            ..st
                        }
                    },
                }
            }
        } else if k == "load"@ {
            if t.len() < 2 {
                fail(st, "load needs a node"@)
            } else {
                match num_at(t, 2) {
                    None => fail(st, num_msg("load amps"@)),
                    Some(i) => PdnStateV { loads: st.loads.push((t[1], i)), ..st },
                }
            }
        } else if k == "emlimit"@ {
            if t.len() < 2 {
                fail(st, "emlimit needs a layer"@)
            } else {
                match num_at(t, 2) {
                    None => fail(st, num_msg("emlimit amps"@)),
                    Some(l) => PdnStateV { em_limits: st.em_limits.push((t[1], l)), ..st },
                }
            }
        } else if k == "cap"@ {
            if t.len() < 2 {
                fail(st, "cap needs a node"@)
            } else {
                match num_at(t, 2) {
                    None => fail(st, num_msg("cap pF"@)),
                    Some(c) => PdnStateV { caps: st.caps.push((t[1], c)), ..st },
                }
            }
        } else if k == "switch"@ {
            if t.len() < 2 {
                fail(st, "switch needs a node"@)
            } else if num_at(t, 2) is None {
                fail(st, num_msg("switch energy(pJ)"@))
            } else if num_at(t, 3) is None {
                fail(st, num_msg("switch t50(ns)"@))
            } else if t.len() > 4 && !spec_is_number(t[4]) {
                fail(st, num_msg("switch dur(ns)"@))
            } else {
                let sw = SwitchV {
                    node: t[1],
                    energy_pj: t[2],
                    t50_ns: t[3],
                    dur_ns: if t.len() > 4 { t[4] } else { "0.1"@ },
                };
                let st2 = PdnStateV { switches: st.switches.push(sw), ..st };
                if t.len() > 4 {
                    PdnStateV {
                        checks: st2.checks.push((t[4], "switch "@ + t[1] + ": dur must be > 0"@)),
                        ..st2
                    }
                } else {
                    st2
                }
            }
        } else {
            fail(st, "unknown keyword: "@ + spec_debug_str(k))
        }
    }
}

/// The reader's state after the given lines.
pub open spec fn pdn_lines(lines: Seq<Seq<char>>) -> PdnStateV
    decreases lines.len(),
{
    if lines.len() == 0 {
        init_state()
    } else {
        pdn_line(pdn_lines(lines.drop_last()), line_words(lines.last()))
    }
}

/// The end of the file: the supply must have been given (and be positive), then
/// there must be a pad, then a resistor.
pub open spec fn pdn_finish(st: PdnStateV) -> PdnStateV {
    if st.error is Some {
        st
    } else {
        match st.vdd {
            None => fail(st, "vdd must be set and > 0"@),
            Some(v) => {
                let st2 = PdnStateV { checks: st.checks.push((v, "vdd must be set and > 0"@)), ..st };
                if st.pads.len() == 0 {
                    fail(st2, "at least one pad is required"@)
                } else if st.resistors.len() == 0 {
                    fail(st2, "at least one resistor is required"@)
                } else {
                    st2
                }
            },
        }
    }
}

/// A pad's voltage: its own, else the supply.
pub open spec fn resolve_pad(p: (Seq<char>, Option<Seq<char>>), vdd: Option<Seq<char>>) -> (
    Seq<char>,
    Seq<char>,
) {
    match p.1 {
        Some(v) => (p.0, v),
        None => (p.0, match vdd { Some(v) => v, None => seq![] }),
    }
}

/// What reading the text `text` gives: the final state of the reader.
pub open spec fn spec_pdn(text: Seq<char>) -> PdnStateV {
    pdn_finish(pdn_lines(spec_lines(text)))
}

struct PdnState {
    vdd: Option<String>,
    pads: Vec<(String, Option<String>)>,
    resistors: Vec<Resistor>,
    loads: Vec<(String, String)>,
    em_limits: Vec<(String, String)>,
    caps: Vec<(String, String)>,
    switches: Vec<Switch>,
    checks: Vec<PositiveCheck>,
    error: Option<PdnError>,
}

pub open spec fn raw_pad_view(p: (String, Option<String>)) -> (Seq<char>, Option<Seq<char>>) {
    (p.0@, opt_view(p.1))
}

pub open spec fn check_view(c: PositiveCheck) -> (Seq<char>, Seq<char>) {
    (c.token@, c.message@)
}

pub open spec fn error_view(e: Option<PdnError>) -> Option<Seq<char>> {
    match e {
        Some(e) => Some(e.0@),
        None => None,
    }
}

impl View for PdnState {
    type V = PdnStateV;

    closed spec fn view(&self) -> PdnStateV {
        PdnStateV {
            vdd: opt_view(self.vdd),
            pads: self.pads@.map_values(|p: (String, Option<String>)| raw_pad_view(p)),
            resistors: self.resistors@.map_values(|r: Resistor| r@),
            loads: pairs_view(self.loads@),
            em_limits: pairs_view(self.em_limits@),
            caps: pairs_view(self.caps@),
            switches: self.switches@.map_values(|w: Switch| w@),
            checks: self.checks@.map_values(|c: PositiveCheck| check_view(c)),
            error: error_view(self.error),
        }
    }
}

fn str_of(v: &Vec<char>) -> (s: String)
    ensures
        s@ == v@,
{
    string_of(v.as_slice())
}

fn num_msg_exec(what: &str) -> (m: String)
    ensures
        m@ == num_msg(what@),
{
    let mut out: Vec<char> = Vec::new();
    push_str(&mut out, what);
    push_str(&mut out, ": expected a number");
    assert(out@ =~= num_msg(what@));
    string_of(out.as_slice())
}

fn num_at_exec(t: &Vec<Vec<char>>, i: usize) -> (b: bool)
    ensures
        b == (num_at(seqs(t@), i as int) is Some),
{
    i < t.len() && is_number(t[i].as_slice())
}

fn set_error(st: &mut PdnState, msg: String)
    ensures
        final(st)@ == fail(old(st)@, msg@),
{
    st.error = Some(PdnError(msg));
}

impl PdnState {
    fn line(&mut self, t: &Vec<Vec<char>>)
        ensures
            final(self)@ == pdn_line(old(self)@, seqs(t@)),
    {
        let ghost ts = seqs(t@);
        if self.error.is_some() || t.len() == 0 {
            return;
        }
        let k = t[0].as_slice();
        assert(k@ == ts[0]);
        if eq_lit(k, "vdd") {
            if num_at_exec(t, 1) {
                self.vdd = Some(str_of(&t[1]));
            } else {
                set_error(self, num_msg_exec("vdd"));
            }
        } else if eq_lit(k, "pad") {
            if t.len() < 2 {
                set_error(self, "pad needs a node".to_string());
            } else if t.len() >= 3 && !is_number(t[2].as_slice()) {
                set_error(self, num_msg_exec("pad voltage"));
            } else {
                let v = if t.len() >= 3 { Some(str_of(&t[2])) } else { None };
                self.pads.push((str_of(&t[1]), v));
            }
        } else if eq_lit(k, "res") || eq_lit(k, "via") {
            if t.len() < 2 {
                set_error(self, "res needs node a".to_string());
            } else if t.len() < 3 {
                set_error(self, "res needs node b".to_string());
            } else if !num_at_exec(t, 3) {
                set_error(self, num_msg_exec("res ohms"));
            } else {
                let layer = if eq_lit(k, "via") {
                    Some("via".to_string())
                } else if t.len() > 4 {
                    Some(str_of(&t[4]))
                } else {
                    None
                };
                let mut m: Vec<char> = Vec::new();
                push_str(&mut m, "res ");
                push_chars(&mut m, t[1].as_slice());
                push_str(&mut m, "-");
                push_chars(&mut m, t[2].as_slice());
                push_str(&mut m, ": resistance must be > 0");
                self.resistors.push(
                    Resistor { a: str_of(&t[1]), b: str_of(&t[2]), r: str_of(&t[3]), layer },
                );
                self.checks.push(PositiveCheck { token: str_of(&t[3]), message: str_of(&m) });
            }
        } else if eq_lit(k, "load") {
            if t.len() < 2 {
                set_error(self, "load needs a node".to_string());
            } else if !num_at_exec(t, 2) {
                set_error(self, num_msg_exec("load amps"));
            } else {
                self.loads.push((str_of(&t[1]), str_of(&t[2])));
            }
        } else if eq_lit(k, "emlimit") {
            if t.len() < 2 {
                set_error(self, "emlimit needs a layer".to_string());
            } else if !num_at_exec(t, 2) {
                set_error(self, num_msg_exec("emlimit amps"));
            } else {
                self.em_limits.push((str_of(&t[1]), str_of(&t[2])));
            }
        } else if eq_lit(k, "cap") {
            if t.len() < 2 {
                set_error(self, "cap needs a node".to_string());
            } else if !num_at_exec(t, 2) {
                set_error(self, num_msg_exec("cap pF"));
            } else {
                self.caps.push((str_of(&t[1]), str_of(&t[2])));
            }
        } else if eq_lit(k, "switch") {
            if t.len() < 2 {
                set_error(self, "switch needs a node".to_string());
            } else if !num_at_exec(t, 2) {
                set_error(self, num_msg_exec("switch energy(pJ)"));
            } else if !num_at_exec(t, 3) {
                set_error(self, num_msg_exec("switch t50(ns)"));
            } else if t.len() > 4 && !is_number(t[4].as_slice()) {
                set_error(self, num_msg_exec("switch dur(ns)"));
            } else {
                let dur = if t.len() > 4 { str_of(&t[4]) } else { "0.1".to_string() };
                self.switches.push(
                    Switch {
                        node: str_of(&t[1]),
                        energy_pj: str_of(&t[2]),
                        t50_ns: str_of(&t[3]),
                        dur_ns: dur,
                    },
                );
                if t.len() > 4 {
                    let mut m: Vec<char> = Vec::new();
                    push_str(&mut m, "switch ");
                    push_chars(&mut m, t[1].as_slice());
                    push_str(&mut m, ": dur must be > 0");
                    self.checks.push(PositiveCheck { token: str_of(&t[4]), message: str_of(&m) });
                }
            }
        } else {
            let mut m: Vec<char> = Vec::new();
            push_str(&mut m, "unknown keyword: ");
            let d = debug_str(str_of(&t[0]).as_str());
            push_chars(&mut m, chars_of(d.as_str()).as_slice());
            set_error(self, str_of(&m));
        }
    }
}

impl PdnState {
    fn finish(&mut self)
        ensures
            final(self)@ == pdn_finish(old(self)@),
    {
        if self.error.is_some() {
            return;
        }
        match &self.vdd {
            None => {
                set_error(self, "vdd must be set and > 0".to_string());
            },
            Some(v) => {
                let c = PositiveCheck { token: v.clone(), message: "vdd must be set and > 0".to_string() };
                self.checks.push(c);
                if self.pads.len() == 0 {
                    set_error(self, "at least one pad is required".to_string());
                } else if self.resistors.len() == 0 {
                    set_error(self, "at least one resistor is required".to_string());
                }
            },
        }
    }
}

/// Everything a `PdnParse` says, against the reader's final state.
pub open spec fn parse_matches(r: PdnParse, st: PdnStateV) -> bool {
    &&& opt_view(r.spec.vdd) == st.vdd
    &&& pairs_view(r.spec.pads@) == st.pads.map_values(
        |p: (Seq<char>, Option<Seq<char>>)| resolve_pad(p, st.vdd),
    )
    &&& r.spec.resistors@.map_values(|x: Resistor| x@) == st.resistors
    &&& pairs_view(r.spec.loads@) == st.loads
    &&& pairs_view(r.spec.em_limits@) == st.em_limits
    &&& pairs_view(r.spec.caps@) == st.caps
    &&& r.spec.switches@.map_values(|w: Switch| w@) == st.switches
    &&& r.checks@.map_values(|c: PositiveCheck| check_view(c)) == st.checks
    &&& error_view(r.error) == st.error
}

/// The verdict on a reading, given for each check whether its value is greater than
/// zero: the message of the first failed check, else the reading's error, else none.
pub open spec fn spec_verdict(checks: Seq<(Seq<char>, Seq<char>)>, error: Option<Seq<char>>, positive: Seq<bool>, i: int) -> Option<Seq<char>>
    decreases checks.len() - i,
{
    if i >= checks.len() || i < 0 {
        error
    } else if !positive[i] {
        Some(checks[i].1)
    } else {
        spec_verdict(checks, error, positive, i + 1)
    }
}

impl PdnParse {
    /// Whether the file is accepted, given for each check (in order) whether its value
    /// is greater than zero.
    pub fn verdict(&self, positive: &[bool]) -> (r: Result<(), PdnError>)
        requires
            positive@.len() == self.checks@.len(),
        ensures
            match r {
                Ok(_) => spec_verdict(self.checks@.map_values(|c: PositiveCheck| check_view(c)), error_view(self.error), positive@, 0) is None,
                Err(e) => spec_verdict(self.checks@.map_values(|c: PositiveCheck| check_view(c)), error_view(self.error), positive@, 0) == Some(e.0@),
            },
    {
        let ghost cs = self.checks@.map_values(|c: PositiveCheck| check_view(c));
        let mut i: usize = 0;
        while i < self.checks.len()
            invariant
                i <= self.checks@.len(),
                positive@.len() == self.checks@.len(),
                cs == self.checks@.map_values(|c: PositiveCheck| check_view(c)),
                spec_verdict(cs, error_view(self.error), positive@, 0) == spec_verdict(cs, error_view(self.error), positive@, i as int),
            decreases self.checks.len() - i,
        {
            if !positive[i] {
                return Err(PdnError(self.checks[i].message.clone()));
            }
            i += 1;
        }
        match &self.error {
            Some(e) => Err(PdnError(e.0.clone())),
            None => Ok(()),
        }
    }
}

impl PdnError {
    /// The error as text: `pdn error: <reason>`.
    pub fn message(&self) -> (s: String)
        ensures
            s@ == "pdn error: "@ + self.0@,
    {
        let mut out: Vec<char> = Vec::new();
        push_str(&mut out, "pdn error: ");
        push_chars(&mut out, chars_of(self.0.as_str()).as_slice());
        string_of(out.as_slice())
    }
}

impl PdnSpec {
    /// Reads a `.pdn` text (see `spec_pdn` for what each line does).
    pub fn parse(text: &str) -> (r: PdnParse)
        ensures
            parse_matches(r, spec_pdn(text@)),
    {
        let chars = chars_of(text);
        let lines = lines_of(chars.as_slice());
        let mut st = PdnState {
            vdd: None,
            pads: Vec::new(),
            resistors: Vec::new(),
            loads: Vec::new(),
            em_limits: Vec::new(),
            caps: Vec::new(),
            switches: Vec::new(),
            checks: Vec::new(),
            error: None,
        };
        assert(st@ == init_state()) by {
            assert(st@.pads =~= init_state().pads);
            assert(st@.resistors =~= init_state().resistors);
            assert(st@.loads =~= init_state().loads);
            assert(st@.em_limits =~= init_state().em_limits);
            assert(st@.caps =~= init_state().caps);
            assert(st@.switches =~= init_state().switches);
            assert(st@.checks =~= init_state().checks);
        }
        let ghost ls = seqs(lines@);
        let mut i: usize = 0;
        while i < lines.len()
            invariant
                i <= lines@.len(),
                ls == seqs(lines@),
                st@ == pdn_lines(ls.take(i as int)),
            decreases lines.len() - i,
        {
            let words = line_words_of(lines[i].as_slice());
            assert(ls.take(i + 1).drop_last() =~= ls.take(i as int));
            assert(ls.take(i + 1).last() == lines@[i as int]@);
            st.line(&words);
            i += 1;
        }
        assert(ls.take(i as int) =~= ls);
        st.finish();
        let ghost fin = st@;
        let vdd_tok: String = match &st.vdd {
            Some(v) => v.clone(),
            None => String::new(),
        };
        let mut pads: Vec<(String, String)> = Vec::new();
        let mut j: usize = 0;
        while j < st.pads.len()
            invariant
                j <= st.pads@.len(),
                fin == st@,
                vdd_tok@ == (match fin.vdd { Some(v) => v, None => seq![] }),
                pairs_view(pads@) == fin.pads.take(j as int).map_values(
                    |p: (Seq<char>, Option<Seq<char>>)| resolve_pad(p, fin.vdd),
                ),
            decreases st.pads.len() - j,
        {
            let (n, v) = &st.pads[j];
            let volt = match v {
                Some(v) => v.clone(),
                None => vdd_tok.clone(),
            };
            pads.push((n.clone(), volt));
            assert(fin.pads.take(j + 1) =~= fin.pads.take(j as int).push(fin.pads[j as int]));
            j += 1;
        }
        assert(fin.pads.take(j as int) =~= fin.pads);
        PdnParse {
            spec: PdnSpec {
                vdd: st.vdd,
                pads,
                resistors: st.resistors,
                loads: st.loads,
                em_limits: st.em_limits,
                caps: st.caps,
                switches: st.switches,
            },
            checks: st.checks,
            error: st.error,
        }
    }

    /// True when the spec carries switching events; the transient analysis then runs
    /// on top of the static solve.
    pub fn is_dynamic(&self) -> (b: bool)
        ensures
            b == (self.switches@.len() > 0),
    {
        self.switches.len() > 0
    }
}

/// Some check is on token `r`.
pub open spec fn has_check(checks: Seq<(Seq<char>, Seq<char>)>, r: Seq<char>) -> bool {
    exists|j: int| 0 <= j < checks.len() && (#[trigger] checks[j]).0 == r
}

/// Every resistance read so far has a positivity check on its token.
pub open spec fn resistances_checked(st: PdnStateV) -> bool {
    forall|i: int| 0 <= i < st.resistors.len() ==> has_check(st.checks, (#[trigger] st.resistors[i]).r)
}

proof fn lemma_line_keeps_checks(st: PdnStateV, t: Seq<Seq<char>>)
    requires
        resistances_checked(st),
    ensures
        resistances_checked(pdn_line(st, t)),
{
    let st2 = pdn_line(st, t);
    assert forall|i: int| 0 <= i < st2.resistors.len() implies has_check(st2.checks, (#[trigger] st2.resistors[i]).r) by {
        if i < st.resistors.len() {
            assert(st2.resistors[i] == st.resistors[i]);
            assert(has_check(st.checks, st.resistors[i].r));
            let j = choose|j: int| 0 <= j < st.checks.len() && (#[trigger] st.checks[j]).0 == st.resistors[i].r;
            assert(st2.checks[j] == st.checks[j]);
        } else {
            assert(st2.checks[st.checks.len() as int].0 == st2.resistors[i].r);
        }
    }
}

proof fn lemma_lines_keep_checks(lines: Seq<Seq<char>>)
    ensures
        resistances_checked(pdn_lines(lines)),
    decreases lines.len(),
{
    if lines.len() > 0 {
        lemma_lines_keep_checks(lines.drop_last());
        lemma_line_keeps_checks(pdn_lines(lines.drop_last()), line_words(lines.last()));
    }
}

proof fn lemma_verdict_none(checks: Seq<(Seq<char>, Seq<char>)>, error: Option<Seq<char>>, positive: Seq<bool>, i: int)
    requires
        0 <= i,
        spec_verdict(checks, error, positive, i) is None,
    ensures
        error is None,
        forall|j: int| i <= j < checks.len() ==> positive[j],
    decreases checks.len() - i,
{
    if i < checks.len() {
        lemma_verdict_none(checks, error, positive, i + 1);
    }
}

/// An accepted network has a positive supply and only positive resistances: when the
/// verdict on a reading is acceptance, the supply token and every resistance token
/// are among the checks that were judged greater than zero.
pub proof fn lemma_accepted_values_are_positive(text: Seq<char>, positive: Seq<bool>)
    requires
        positive.len() == spec_pdn(text).checks.len(),
        spec_verdict(spec_pdn(text).checks, spec_pdn(text).error, positive, 0) is None,
    ensures
        spec_pdn(text).error is None,
        spec_pdn(text).vdd matches Some(v) && exists|j: int|
            0 <= j < positive.len() && spec_pdn(text).checks[j].0 == v && #[trigger] positive[j],
        forall|i: int|
            0 <= i < spec_pdn(text).resistors.len() ==> exists|j: int|
                0 <= j < positive.len() && spec_pdn(text).checks[j].0 == (#[trigger] spec_pdn(text).resistors[i]).r
                    && #[trigger] positive[j],
{
    let ls = spec_lines(text);
    let st = pdn_lines(ls);
    let fin = spec_pdn(text);
    lemma_lines_keep_checks(ls);
    lemma_verdict_none(fin.checks, fin.error, positive, 0);
    assert(st.error is None);
    let v = st.vdd->0;
    assert(fin.checks[st.checks.len() as int] == (v, "vdd must be set and > 0"@));
    assert(positive[st.checks.len() as int]);
    assert forall|i: int| 0 <= i < fin.resistors.len() implies exists|j: int|
        0 <= j < positive.len() && fin.checks[j].0 == (#[trigger] fin.resistors[i]).r && #[trigger] positive[j] by {
        assert(fin.resistors[i] == st.resistors[i]);
        assert(has_check(st.checks, st.resistors[i].r));
        let j = choose|j: int| 0 <= j < st.checks.len() && (#[trigger] st.checks[j]).0 == st.resistors[i].r;
        assert(fin.checks[j] == st.checks[j]);
        assert(positive[j]);
    }
}

/// Every value token of the reader's state is a number token.
pub open spec fn state_numeric(st: PdnStateV) -> bool {
    &&& (st.vdd matches Some(v) ==> spec_is_number(v))
    &&& forall|i: int| 0 <= i < st.pads.len() ==> ((#[trigger] st.pads[i]).1 matches Some(v) ==> spec_is_number(v))
    &&& forall|i: int| 0 <= i < st.resistors.len() ==> spec_is_number((#[trigger] st.resistors[i]).r)
    &&& forall|i: int| 0 <= i < st.loads.len() ==> spec_is_number((#[trigger] st.loads[i]).1)
    &&& forall|i: int| 0 <= i < st.em_limits.len() ==> spec_is_number((#[trigger] st.em_limits[i]).1)
    &&& forall|i: int| 0 <= i < st.caps.len() ==> spec_is_number((#[trigger] st.caps[i]).1)
    &&& forall|i: int|
        0 <= i < st.switches.len() ==> {
            &&& spec_is_number((#[trigger] st.switches[i]).energy_pj)
            &&& spec_is_number(st.switches[i].t50_ns)
            &&& spec_is_number(st.switches[i].dur_ns)
        }
}

proof fn lemma_line_numeric(st: PdnStateV, t: Seq<Seq<char>>)
    requires
        state_numeric(st),
    ensures
        state_numeric(pdn_line(st, t)),
{
    reveal_strlit("0.1");
    crate::num::lemma_plain_decimal_is_number(seq!['0'], seq!['1']);
    assert(seq!['0'] + seq!['.'] + seq!['1'] =~= "0.1"@);
    let st2 = pdn_line(st, t);
    assert forall|i: int| 0 <= i < st2.pads.len() implies ((#[trigger] st2.pads[i]).1 matches Some(v)
        ==> spec_is_number(v)) by {
        if i < st.pads.len() {
            assert(st2.pads[i] == st.pads[i]);
        }
    }
    assert forall|i: int| 0 <= i < st2.resistors.len() implies spec_is_number((#[trigger] st2.resistors[i]).r) by {
        if i < st.resistors.len() {
            assert(st2.resistors[i] == st.resistors[i]);
        }
    }
    assert forall|i: int| 0 <= i < st2.loads.len() implies spec_is_number((#[trigger] st2.loads[i]).1) by {
        if i < st.loads.len() {
            assert(st2.loads[i] == st.loads[i]);
        }
    }
    assert forall|i: int| 0 <= i < st2.em_limits.len() implies spec_is_number((#[trigger] st2.em_limits[i]).1) by {
        if i < st.em_limits.len() {
            assert(st2.em_limits[i] == st.em_limits[i]);
        }
    }
    assert forall|i: int| 0 <= i < st2.caps.len() implies spec_is_number((#[trigger] st2.caps[i]).1) by {
        if i < st.caps.len() {
            assert(st2.caps[i] == st.caps[i]);
        }
    }
    assert forall|i: int| 0 <= i < st2.switches.len() implies {
        &&& spec_is_number((#[trigger] st2.switches[i]).energy_pj)
        &&& spec_is_number(st2.switches[i].t50_ns)
        &&& spec_is_number(st2.switches[i].dur_ns)
    } by {
        if i < st.switches.len() {
            assert(st2.switches[i] == st.switches[i]);
        }
    }
}

proof fn lemma_lines_numeric(lines: Seq<Seq<char>>)
    ensures
        state_numeric(pdn_lines(lines)),
    decreases lines.len(),
{
    if lines.len() > 0 {
        lemma_lines_numeric(lines.drop_last());
        lemma_line_numeric(pdn_lines(lines.drop_last()), line_words(lines.last()));
    }
}

/// Every value of an accepted network is a number token: the supply, each pad's
/// voltage (its own or the supply's), and every resistance, load, limit,
/// capacitance and switching-event value.
pub proof fn lemma_pdn_values_are_numbers(text: Seq<char>)
    requires
        spec_pdn(text).error is None,
    ensures
        spec_pdn(text).vdd matches Some(v) && spec_is_number(v),
        forall|i: int|
            0 <= i < spec_pdn(text).pads.len() ==> spec_is_number(
                resolve_pad(#[trigger] spec_pdn(text).pads[i], spec_pdn(text).vdd).1,
            ),
        state_numeric(spec_pdn(text)),
{
    lemma_lines_numeric(spec_lines(text));
}

/// Each keyword line of a `.pdn` file, read before any error, records what it names
/// from its own words: `vdd v` the supply; `pad n [v]` a pad `n` with its optional
/// voltage; `res a b r [layer]` a resistor from `a` to `b` of `r` ohms on `layer` and
/// a positivity check on `r`; `via a b r` the same on layer `via`; `load n i`,
/// `cap n c` and `emlimit l a` their pair; `switch n e t [d]` a switching event with
/// energy `e`, peak time `t` and duration `d` (0.1 when absent).
pub proof fn lemma_pdn_lines_record_their_words(st: PdnStateV, t: Seq<Seq<char>>)
    requires
        st.error is None,
        t.len() > 0,
    ensures
        ({
            let r = pdn_line(st, t);
            &&& (t[0] == "vdd"@ && t.len() >= 2 && spec_is_number(t[1])) ==> r == PdnStateV { vdd: Some(t[1]), ..st }
            &&& (t[0] == "pad"@ && t.len() == 2) ==> r == PdnStateV { pads: st.pads.push((t[1], None)), ..st }
            &&& (t[0] == "pad"@ && t.len() >= 3 && spec_is_number(t[2])) ==> r == PdnStateV {
                pads: st.pads.push((t[1], Some(t[2]))),
                ..st
            }
            &&& (t[0] == "res"@ && t.len() >= 4 && spec_is_number(t[3])) ==> {
                &&& r.resistors == st.resistors.push(
                    ResistorV { a: t[1], b: t[2], r: t[3], layer: if t.len() > 4 { Some(t[4]) } else { None } },
                )
                &&& r.checks.len() == st.checks.len() + 1 && r.checks.last().0 == t[3]
                &&& r.error is None && r.loads == st.loads && r.pads == st.pads
            }
            &&& (t[0] == "via"@ && t.len() >= 4 && spec_is_number(t[3])) ==> r.resistors == st.resistors.push(
                ResistorV { a: t[1], b: t[2], r: t[3], layer: Some("via"@) },
            )
            &&& (t[0] == "load"@ && t.len() >= 3 && spec_is_number(t[2])) ==> r == PdnStateV {
                loads: st.loads.push((t[1], t[2])),
                ..st
            }
            &&& (t[0] == "cap"@ && t.len() >= 3 && spec_is_number(t[2])) ==> r == PdnStateV {
                caps: st.caps.push((t[1], t[2])),
                ..st
            }
            &&& (t[0] == "emlimit"@ && t.len() >= 3 && spec_is_number(t[2])) ==> r == PdnStateV {
                em_limits: st.em_limits.push((t[1], t[2])),
                ..st
            }
            &&& (t[0] == "switch"@ && t.len() >= 4 && spec_is_number(t[2]) && spec_is_number(t[3]) && (t.len() == 4
                || spec_is_number(t[4]))) ==> r.switches == st.switches.push(
                SwitchV {
                    node: t[1],
                    energy_pj: t[2],
                    t50_ns: t[3],
                    dur_ns: if t.len() > 4 { t[4] } else { "0.1"@ },
                },
            )
        }),
{
    reveal_strlit("vdd");
    reveal_strlit("pad");
    reveal_strlit("res");
    reveal_strlit("via");
    reveal_strlit("load");
    reveal_strlit("cap");
    reveal_strlit("emlimit");
    reveal_strlit("switch");
    assert("vdd"@.len() == 3 && "pad"@.len() == 3 && "res"@.len() == 3 && "via"@.len() == 3);
    assert("load"@.len() == 4 && "cap"@.len() == 3 && "emlimit"@.len() == 7 && "switch"@.len() == 6);
    assert("vdd"@[0] == 'v' && "pad"@[0] == 'p' && "res"@[0] == 'r' && "via"@[0] == 'v' && "cap"@[0] == 'c');
    assert("vdd"@[1] == 'd' && "via"@[1] == 'i');
}

/// A pad written without a voltage is held at the supply; one written with a voltage
/// at that voltage.
pub proof fn lemma_pad_voltage_defaults_to_the_supply(p: (Seq<char>, Option<Seq<char>>), vdd: Seq<char>)
    ensures
        resolve_pad(p, Some(vdd)).0 == p.0,
        p.1 is None ==> resolve_pad(p, Some(vdd)).1 == vdd,
        p.1 matches Some(v) ==> resolve_pad(p, Some(vdd)).1 == v,
{
}

/// Reading stops at the first error: once an error is recorded every later line leaves
/// the state as it is; and a line whose first word is not one of `vdd`, `pad`, `res`,
/// `via`, `load`, `cap`, `emlimit`, `switch` records an error and nothing else.
pub proof fn lemma_pdn_errors_stop_reading(st: PdnStateV, t: Seq<Seq<char>>)
    ensures
        st.error is Some ==> pdn_line(st, t) == st,
        (st.error is None && t.len() > 0 && t[0] != "vdd"@ && t[0] != "pad"@ && t[0] != "res"@ && t[0] != "via"@
            && t[0] != "load"@ && t[0] != "cap"@ && t[0] != "emlimit"@ && t[0] != "switch"@) ==> ({
            let r = pdn_line(st, t);
            &&& r.error is Some
            &&& r == PdnStateV { error: r.error, ..st }
        }),
{
}

proof fn lemma_verdict_from(
    checks: Seq<(Seq<char>, Seq<char>)>,
    error: Option<Seq<char>>,
    positive: Seq<bool>,
    i: int,
    k: int,
)
    requires
        0 <= i <= k <= checks.len(),
        positive.len() == checks.len(),
        forall|j: int| i <= j < k ==> positive[j],
        k < checks.len() ==> !positive[k],
    ensures
        spec_verdict(checks, error, positive, i) == (if k < checks.len() { Some(checks[k].1) } else { error }),
    decreases k - i,
{
    if i < k {
        lemma_verdict_from(checks, error, positive, i + 1, k);
    }
}

/// The verdict reports the first check judged not greater than zero, by its message;
/// only when every check passed does it fall back to the reading's own error.
pub proof fn lemma_verdict_is_the_first_failed_check(
    checks: Seq<(Seq<char>, Seq<char>)>,
    error: Option<Seq<char>>,
    positive: Seq<bool>,
    k: int,
)
    requires
        positive.len() == checks.len(),
    ensures
        (0 <= k < checks.len() && !positive[k] && forall|j: int| 0 <= j < k ==> positive[j]) ==> spec_verdict(
            checks,
            error,
            positive,
            0,
        ) == Some(checks[k].1),
        (forall|j: int| 0 <= j < checks.len() ==> positive[j]) ==> spec_verdict(checks, error, positive, 0) == error,
{
    if 0 <= k < checks.len() && !positive[k] && forall|j: int| 0 <= j < k ==> positive[j] {
        lemma_verdict_from(checks, error, positive, 0, k);
    }
    if forall|j: int| 0 <= j < checks.len() ==> positive[j] {
        lemma_verdict_from(checks, error, positive, 0, checks.len() as int);
    }
}

} // verus!
