//! EM/IR job: the declarative description of what to analyze.
//!
//! An `.emir` job is a small `key: value` file:
//!
//! ```text
//! design:        top
//! pdn:           top.pdn        # the PDN resistor network
//! ir_limit_pct:  5.0            # fail threshold: max allowed IR drop (% of vdd)
//! ```
//!
//! Keys are case-insensitive; a later line for a key overrides an earlier one. A
//! numeric setting that is absent, or whose value is not a number, takes its
//! default.

use vstd::prelude::*;
use crate::num::{is_number, spec_is_number};
use crate::text::{
    chars_of, debug_str, find_char, first_index_of, lemma_first_index_of, lines_of, lowercase,
    push_chars, push_str, seqs, spec_debug_str, spec_lines, spec_lowercase, spec_strip_comment,
    spec_trim, string_of, trim,
};

verus! {

broadcast use {vstd::string::group_string_axioms, crate::text::lemma_map_push};

/// A job. Numeric settings are number tokens (each one a valid floating-point literal);
/// file settings are paths as written, resolved against `base_dir` when read.
#[derive(Debug, Clone)]
pub struct EmIrJob {
    pub design: String,
    pub pdn: String,
    pub ir_limit_pct: String,
    pub def: String,
    pub lef: String,
    pub cell_lef: String,
    pub vdd: String,
    pub pad_layer: String,
    pub via_res: String,
    pub total_current: String,
    pub power_map: String,
    pub decap_map: String,
    pub current_map: String,
    pub clock_ghz: String,
    pub activity: String,
    pub switch_t_ns: String,
    pub switch_dur_ns: String,
    pub node_cap_pf: String,
    pub base_dir: String,
}

/// A job-reading error; the text is the reason.
#[derive(Debug, Clone)]
pub struct JobError(pub String);

pub struct EmIrJobV {
    pub design: Seq<char>,
    pub pdn: Seq<char>,
    pub ir_limit_pct: Seq<char>,
    pub def: Seq<char>,
    pub lef: Seq<char>,
    pub cell_lef: Seq<char>,
    pub vdd: Seq<char>,
    pub pad_layer: Seq<char>,
    pub via_res: Seq<char>,
    pub total_current: Seq<char>,
    pub power_map: Seq<char>,
    pub decap_map: Seq<char>,
    pub current_map: Seq<char>,
    pub clock_ghz: Seq<char>,
    pub activity: Seq<char>,
    pub switch_t_ns: Seq<char>,
    pub switch_dur_ns: Seq<char>,
    pub node_cap_pf: Seq<char>,
    pub base_dir: Seq<char>,
}

impl View for EmIrJob {
    type V = EmIrJobV;

    open spec fn view(&self) -> EmIrJobV {
        EmIrJobV {
            design: self.design@,
            pdn: self.pdn@,
            ir_limit_pct: self.ir_limit_pct@,
            def: self.def@,
            lef: self.lef@,
            cell_lef: self.cell_lef@,
            vdd: self.vdd@,
            pad_layer: self.pad_layer@,
            via_res: self.via_res@,
            total_current: self.total_current@,
            power_map: self.power_map@,
            decap_map: self.decap_map@,
            current_map: self.current_map@,
            clock_ghz: self.clock_ghz@,
            activity: self.activity@,
            switch_t_ns: self.switch_t_ns@,
            switch_dur_ns: self.switch_dur_ns@,
            node_cap_pf: self.node_cap_pf@,
            base_dir: self.base_dir@,
        }
    }
}

pub type KeyValues = Seq<(Seq<char>, Seq<char>)>;

/// One line of a job file applied to (the settings so far, the first error).
pub open spec fn job_line(st: (KeyValues, Option<Seq<char>>), raw: Seq<char>) -> (
    KeyValues,
    Option<Seq<char>>,
) {
    let line = spec_trim(spec_strip_comment(raw));
    if st.1 is Some || line.len() == 0 {
        st
    } else {
        let k = first_index_of(line, ':');
        if k == line.len() {
            (st.0, Some("expected 'key: value', got "@ + spec_debug_str(line)))
        } else {
            (st.0.push((spec_lowercase(spec_trim(line.take(k))), spec_trim(line.skip(k + 1)))), None)
        }
    }
}

pub open spec fn job_lines(lines: Seq<Seq<char>>) -> (KeyValues, Option<Seq<char>>)
    decreases lines.len(),
{
    if lines.len() == 0 {
        (seq![], None)
    } else {
        job_line(job_lines(lines.drop_last()), lines.last())
    }
}

/// The value of the last setting of `key`.
pub open spec fn lookup(kv: KeyValues, key: Seq<char>) -> Option<Seq<char>>
    decreases kv.len(),
{
    if kv.len() == 0 {
        None
    } else if kv.last().0 == key {
        Some(kv.last().1)
    } else {
        lookup(kv.drop_last(), key)
    }
}

/// A text setting; empty when absent.
pub open spec fn text_or_empty(kv: KeyValues, key: Seq<char>) -> Seq<char> {
    match lookup(kv, key) {
        Some(v) => v,
        None => seq![],
    }
}

/// A numeric setting; `dflt` when absent or not a number.
pub open spec fn number_or(kv: KeyValues, key: Seq<char>, dflt: Seq<char>) -> Seq<char> {
    match lookup(kv, key) {
        Some(v) => if spec_is_number(v) { v } else { dflt },
        None => dflt,
    }
}

/// The job the settings describe (the design given).
pub open spec fn job_from(kv: KeyValues, design: Seq<char>, base: Seq<char>) -> EmIrJobV {
    EmIrJobV {
        design,
        pdn: text_or_empty(kv, "pdn"@),
        ir_limit_pct: number_or(kv, "ir_limit_pct"@, "5.0"@),
        def: text_or_empty(kv, "def"@),
        lef: text_or_empty(kv, "lef"@),
        cell_lef: text_or_empty(kv, "cell_lef"@),
        vdd: number_or(kv, "vdd"@, "1.8"@),
        pad_layer: text_or_empty(kv, "pad_layer"@),
        via_res: number_or(kv, "via_res"@, "5.0"@),
        total_current: number_or(kv, "total_current"@, "0.0"@),
        power_map: text_or_empty(kv, "power_map"@),
        decap_map: text_or_empty(kv, "decap_map"@),
        current_map: text_or_empty(kv, "current_map"@),
        clock_ghz: number_or(kv, "clock_ghz"@, "1.0"@),
        activity: number_or(kv, "activity"@, "0.2"@),
        switch_t_ns: number_or(kv, "switch_t_ns"@, "1.0"@),
        switch_dur_ns: number_or(kv, "switch_dur_ns"@, "0.1"@),
        node_cap_pf: number_or(kv, "node_cap_pf"@, "0.0"@),
        base_dir: base,
    }
}

/// What reading job text `text` (found in directory `base`) gives.
pub open spec fn spec_job(text: Seq<char>, base: Seq<char>) -> Result<EmIrJobV, Seq<char>> {
    let (kv, err) = job_lines(spec_lines(text));
    match err {
        Some(e) => Err(e),
        None => match lookup(kv, "design"@) {
            None => Err("missing key: design"@),
            Some(d) => {
                let j = job_from(kv, d, base);
                if j.pdn.len() == 0 && j.def.len() == 0 {
                    Err("either `pdn` or `def` (+`lef`) is required"@)
                } else if j.def.len() > 0 && j.lef.len() == 0 {
                    Err("`def` extraction also needs `lef` (layer resistances)"@)
                } else if j.def.len() > 0 && j.pad_layer.len() == 0 {
                    Err("`def` extraction needs `pad_layer` (the supply/top layer)"@)
                } else {
                    Ok(j)
                }
            },
        },
    }
}

fn job_line_exec(kv: &mut Vec<(String, String)>, raw: &[char]) -> (err: Option<String>)
    ensures
        (crate::pdn::pairs_view(final(kv)@), match err { Some(e) => Some(e@), None => None })
            == job_line((crate::pdn::pairs_view(old(kv)@), None), raw@),
{
    let k0 = find_char(raw, '#');
    proof {
        lemma_first_index_of(raw@, '#');
    }
    let (head, _) = raw.split_at(k0);
    let line = trim(head);
    if line.len() == 0 {
        return None;
    }
    let k = find_char(line.as_slice(), ':');
    proof {
        lemma_first_index_of(line@, ':');
    }
    if k == line.len() {
        let mut m: Vec<char> = Vec::new();
        push_str(&mut m, "expected 'key: value', got ");
        let d = debug_str(string_of(line.as_slice()).as_str());
        push_chars(&mut m, chars_of(d.as_str()).as_slice());
        return Some(string_of(m.as_slice()));
    }
    let (a, b) = line.as_slice().split_at(k);
    let key = lowercase(string_of(trim(a).as_slice()).as_str());
    let (_, b1) = b.split_at(1);
    assert(b1@ =~= line@.skip(k + 1));
    let val = string_of(trim(b1).as_slice());
    kv.push((key, val));
    None
}

fn lookup_exec(kv: &Vec<(String, String)>, key: &str) -> (r: Option<String>)
    ensures
        match r { Some(v) => Some(v@), None => None } == lookup(crate::pdn::pairs_view(kv@), key@),
{
    let ghost kvs = crate::pdn::pairs_view(kv@);
    let mut i = kv.len();
    assert(kvs.take(i as int) =~= kvs);
    while i > 0
        invariant
            i <= kv@.len(),
            kvs == crate::pdn::pairs_view(kv@),
            lookup(kvs, key@) == lookup(kvs.take(i as int), key@),
        decreases i,
    {
        let ghost pre = kvs.take(i as int);
        assert(pre.drop_last() =~= kvs.take(i - 1));
        let (k, v) = &kv[i - 1];
        assert(pre.last() == (k@, v@));
        if eq_string_lit(k, key) {
            return Some(v.clone());
        }
        i -= 1;
    }
    None
}

fn eq_string_lit(s: &String, lit: &str) -> (b: bool)
    ensures
        b == (s@ == lit@),
{
    let c = chars_of(s.as_str());
    crate::text::eq_lit(c.as_slice(), lit)
}

fn text_exec(kv: &Vec<(String, String)>, key: &str) -> (r: String)
    ensures
        r@ == text_or_empty(crate::pdn::pairs_view(kv@), key@),
{
    match lookup_exec(kv, key) {
        Some(v) => v,
        None => String::new(),
    }
}

fn number_exec(kv: &Vec<(String, String)>, key: &str, dflt: &str) -> (r: String)
    ensures
        r@ == number_or(crate::pdn::pairs_view(kv@), key@, dflt@),
{
    match lookup_exec(kv, key) {
        Some(v) => {
            if is_number(chars_of(v.as_str()).as_slice()) {
                v
            } else {
                dflt.to_string()
            }
        },
        None => dflt.to_string(),
    }
}

impl EmIrJob {
    /// Reads a job (see `spec_job`); `base_dir` is the directory paths are relative to.
    pub fn parse(text: &str, base_dir: &str) -> (r: Result<EmIrJob, JobError>)
        ensures
            match r {
                Ok(j) => spec_job(text@, base_dir@) == Ok::<EmIrJobV, Seq<char>>(j@),
                Err(e) => spec_job(text@, base_dir@) == Err::<EmIrJobV, Seq<char>>(e.0@),
            },
    {
        let chars = chars_of(text);
        let lines = lines_of(chars.as_slice());
        let ghost ls = seqs(lines@);
        let mut kv: Vec<(String, String)> = Vec::new();
        let mut i: usize = 0;
        while i < lines.len()
            invariant
                i <= lines@.len(),
                ls == seqs(lines@),
                ls == spec_lines(text@),
                job_lines(ls.take(i as int)) == (crate::pdn::pairs_view(kv@), None::<Seq<char>>),
            decreases lines.len() - i,
        {
            assert(ls.take(i + 1).drop_last() =~= ls.take(i as int));
            assert(ls.take(i + 1).last() == lines@[i as int]@);
            let ghost before = crate::pdn::pairs_view(kv@);
            let err = job_line_exec(&mut kv, lines[i].as_slice());
            if let Some(e) = err {
                assert(job_lines(ls.take(i + 1)) == job_line((before, None), ls[i as int]));
                proof {
                    lemma_job_lines_stuck(ls, i as int + 1, e@);
                    assert(ls == spec_lines(text@));
                    assert(job_lines(spec_lines(text@)).1 == Some(e@));
                    assert(spec_job(text@, base_dir@) == Err::<EmIrJobV, Seq<char>>(e@));
                }
                return Err(JobError(e));
            }
            i += 1;
        }
        assert(ls.take(i as int) =~= ls);
        let design = match lookup_exec(&kv, "design") {
            Some(d) => d,
            None => {
                return Err(JobError("missing key: design".to_string()));
            },
        };
        let job = EmIrJob {
            design,
            pdn: text_exec(&kv, "pdn"),
            ir_limit_pct: number_exec(&kv, "ir_limit_pct", "5.0"),
            def: text_exec(&kv, "def"),
            lef: text_exec(&kv, "lef"),
            cell_lef: text_exec(&kv, "cell_lef"),
            vdd: number_exec(&kv, "vdd", "1.8"),
            pad_layer: text_exec(&kv, "pad_layer"),
            via_res: number_exec(&kv, "via_res", "5.0"),
            total_current: number_exec(&kv, "total_current", "0.0"),
            power_map: text_exec(&kv, "power_map"),
            decap_map: text_exec(&kv, "decap_map"),
            current_map: text_exec(&kv, "current_map"),
            clock_ghz: number_exec(&kv, "clock_ghz", "1.0"),
            activity: number_exec(&kv, "activity", "0.2"),
            switch_t_ns: number_exec(&kv, "switch_t_ns", "1.0"),
            switch_dur_ns: number_exec(&kv, "switch_dur_ns", "0.1"),
            node_cap_pf: number_exec(&kv, "node_cap_pf", "0.0"),
            base_dir: base_dir.to_string(),
        };
        if job.pdn.as_str().is_empty() && job.def.as_str().is_empty() {
            return Err(JobError("either `pdn` or `def` (+`lef`) is required".to_string()));
        }
        if !job.def.as_str().is_empty() {
            if job.lef.as_str().is_empty() {
                return Err(
                    JobError("`def` extraction also needs `lef` (layer resistances)".to_string()),
                );
            }
            if job.pad_layer.as_str().is_empty() {
                return Err(
                    JobError("`def` extraction needs `pad_layer` (the supply/top layer)".to_string()),
                );
            }
        }
        Ok(job)
    }
}

/// An ASCII letter or digit, `.`, `_` or `-`.
pub open spec fn plain_char(c: char) -> bool {
    ('a' <= c && c <= 'z') || ('A' <= c && c <= 'Z') || ('0' <= c && c <= '9') || c == '.' || c == '_' || c == '-'
}

/// A non-empty path of plain characters and `/`: no drive, share or verbatim prefix
/// can be written with these on any platform.
pub open spec fn plain_path(s: Seq<char>) -> bool {
    s.len() > 0 && forall|i: int| 0 <= i < s.len() ==> plain_char(#[trigger] s[i]) || s[i] == '/'
}

/// A plain path that does not start at a root: relative on every platform.
pub open spec fn plain_relative(s: Seq<char>) -> bool {
    plain_path(s) && s[0] != '/'
}

/// What joining a plain relative path onto a plain directory gives: the directory,
/// a separator (`/` or `\\`, the platform's) unless the directory ends in `/`, then
/// the path.
pub open spec fn joined(base: Seq<char>, rel: Seq<char>, r: Seq<char>) -> bool {
    if base.last() == '/' {
        r == base + rel
    } else {
        r == base + seq!['/'] + rel || r == base + seq!['\\'] + rel
    }
}

/// Whether a path is absolute on this platform (`Path::is_absolute`). Stated only for
/// plain relative paths, which are relative everywhere; otherwise the rule is the
/// platform's (a leading `/` on Unix, a drive or share prefix on Windows).
#[verifier::external_body]
fn path_is_absolute(p: &str) -> (b: bool)
    ensures
        plain_relative(p@) ==> !b,
{
    std::path::Path::new(p).is_absolute()
}

/// `base` joined with `rel` by the platform's path rules (`Path::join`), as text. For
/// a plain directory and a plain relative path, `PathBuf::push` appends the path after
/// a separator when the directory does not already end in one; otherwise the result
/// is the platform's (prefixes, verbatim paths) and nothing is stated.
#[verifier::external_body]
fn path_join(base: &str, rel: &str) -> (r: String)
    ensures
        plain_path(base@) && plain_relative(rel@) ==> joined(base@, rel@, r@),
{
    std::path::Path::new(base).join(rel).to_string_lossy().into_owned()
}

impl EmIrJob {
    /// A file setting resolved against the job's directory: unchanged when it is
    /// absolute or the job has no directory, else joined onto the directory.
    pub fn resolve(&self, rel: &str) -> (r: String)
        ensures
            self.base_dir@.len() == 0 ==> r@ == rel@,
            plain_path(self.base_dir@) && plain_relative(rel@) ==> joined(self.base_dir@, rel@, r@),
    {
        if self.base_dir.as_str().is_empty() || path_is_absolute(rel) {
            rel.to_string()
        } else {
            path_join(self.base_dir.as_str(), rel)
        }
    }
}

/// Once a line has failed, later lines change nothing.
proof fn lemma_job_lines_stuck(ls: Seq<Seq<char>>, i: int, e: Seq<char>)
    requires
        0 < i <= ls.len(),
        job_lines(ls.take(i)).1 == Some(e),
    ensures
        job_lines(ls).1 == Some(e),
    decreases ls.len() - i,
{
    if i < ls.len() {
        assert(ls.take(i + 1).drop_last() =~= ls.take(i));
        lemma_job_lines_stuck(ls, i + 1, e);
    } else {
        assert(ls.take(i) =~= ls);
    }
}


impl JobError {
    /// The error as text: `job error: <reason>`.
    pub fn message(&self) -> (s: String)
        ensures
            s@ == "job error: "@ + self.0@,
    {
        let mut out: Vec<char> = Vec::new();
        crate::text::push_str(&mut out, "job error: ");
        crate::text::push_chars(&mut out, chars_of(self.0.as_str()).as_slice());
        string_of(out.as_slice())
    }
}

proof fn lemma_number_or(kv: KeyValues, key: Seq<char>, dflt: Seq<char>)
    requires
        spec_is_number(dflt),
    ensures
        spec_is_number(number_or(kv, key, dflt)),
{
}

proof fn lemma_default_is_number(d: char, f: char)
    requires
        '0' <= d <= '9',
        '0' <= f <= '9',
    ensures
        spec_is_number(seq![d, '.', f]),
{
    crate::num::lemma_plain_decimal_is_number(seq![d], seq![f]);
    assert(seq![d] + seq!['.'] + seq![f] =~= seq![d, '.', f]);
}

/// An accepted job names a network to analyze (a `.pdn`, or a DEF with its LEF and
/// its pad layer), and every numeric setting of it is a number token, read or
/// defaulted.
pub proof fn lemma_accepted_job_is_complete(text: Seq<char>, base: Seq<char>)
    requires
        spec_job(text, base) is Ok,
    ensures
        match spec_job(text, base) {
            Ok(j) => {
                &&& j.pdn.len() > 0 || j.def.len() > 0
                &&& j.def.len() > 0 ==> j.lef.len() > 0 && j.pad_layer.len() > 0
                &&& spec_is_number(j.ir_limit_pct) && spec_is_number(j.vdd) && spec_is_number(j.via_res)
                &&& spec_is_number(j.total_current) && spec_is_number(j.clock_ghz) && spec_is_number(j.activity)
                &&& spec_is_number(j.switch_t_ns) && spec_is_number(j.switch_dur_ns) && spec_is_number(j.node_cap_pf)
            },
            Err(_) => true,
        },
{
    reveal_strlit("5.0");
    reveal_strlit("1.8");
    reveal_strlit("0.0");
    reveal_strlit("1.0");
    reveal_strlit("0.2");
    reveal_strlit("0.1");
    lemma_default_is_number('5', '0');
    lemma_default_is_number('1', '8');
    lemma_default_is_number('0', '0');
    lemma_default_is_number('1', '0');
    lemma_default_is_number('0', '2');
    lemma_default_is_number('0', '1');
    assert("5.0"@ =~= seq!['5', '.', '0']);
    assert("1.8"@ =~= seq!['1', '.', '8']);
    assert("0.0"@ =~= seq!['0', '.', '0']);
    assert("1.0"@ =~= seq!['1', '.', '0']);
    assert("0.2"@ =~= seq!['0', '.', '2']);
    assert("0.1"@ =~= seq!['0', '.', '1']);
    let (kv, err) = job_lines(spec_lines(text));
    lemma_number_or(kv, "ir_limit_pct"@, "5.0"@);
    lemma_number_or(kv, "vdd"@, "1.8"@);
    lemma_number_or(kv, "via_res"@, "5.0"@);
    lemma_number_or(kv, "total_current"@, "0.0"@);
    lemma_number_or(kv, "clock_ghz"@, "1.0"@);
    lemma_number_or(kv, "activity"@, "0.2"@);
    lemma_number_or(kv, "switch_t_ns"@, "1.0"@);
    lemma_number_or(kv, "switch_dur_ns"@, "0.1"@);
    lemma_number_or(kv, "node_cap_pf"@, "0.0"@);
}

/// Entry `i` is the last setting of its key.
pub open spec fn last_of_key(kv: KeyValues, i: int) -> bool {
    0 <= i < kv.len() && forall|m: int| i < m < kv.len() ==> kv[m].0 != kv[i].0
}

/// No setting has key `k`.
pub open spec fn unset(kv: KeyValues, k: Seq<char>) -> bool {
    forall|m: int| 0 <= m < kv.len() ==> kv[m].0 != k
}

proof fn lemma_lookup_last(kv: KeyValues, i: int)
    requires
        last_of_key(kv, i),
    ensures
        lookup(kv, kv[i].0) == Some(kv[i].1),
    decreases kv.len(),
{
    if i < kv.len() - 1 {
        let d = kv.drop_last();
        assert forall|m: int| i < m < d.len() implies d[m].0 != d[i].0 by {
            assert(d[m] == kv[m]);
        }
        lemma_lookup_last(d, i);
    }
}

proof fn lemma_lookup_unset(kv: KeyValues, k: Seq<char>)
    requires
        unset(kv, k),
    ensures
        lookup(kv, k) is None,
    decreases kv.len(),
{
    if kv.len() > 0 {
        let d = kv.drop_last();
        assert forall|m: int| 0 <= m < d.len() implies d[m].0 != k by {
            assert(d[m] == kv[m]);
        }
        lemma_lookup_unset(d, k);
    }
}

/// The settings a job text gives, in file order: (lower-cased key, value).
pub open spec fn job_settings(text: Seq<char>) -> KeyValues {
    job_lines(spec_lines(text)).0
}

/// Each file setting of an accepted job is the value of the last line whose key is
/// that setting's own name, and is empty when no line names it: `pdn`, `def`, `lef`,
/// `cell_lef`, `pad_layer`, `power_map`, `decap_map`, `current_map`, and `design`.
pub proof fn lemma_job_text_settings_come_from_their_own_keys(text: Seq<char>, base: Seq<char>, i: int)
    requires
        spec_job(text, base) is Ok,
        last_of_key(job_settings(text), i),
    ensures
        match spec_job(text, base) {
            Ok(j) => {
                let (k, v) = job_settings(text)[i];
                &&& k == "design"@ ==> j.design == v
                &&& k == "pdn"@ ==> j.pdn == v
                &&& k == "def"@ ==> j.def == v
                &&& k == "lef"@ ==> j.lef == v
                &&& k == "cell_lef"@ ==> j.cell_lef == v
                &&& k == "pad_layer"@ ==> j.pad_layer == v
                &&& k == "power_map"@ ==> j.power_map == v
                &&& k == "decap_map"@ ==> j.decap_map == v
                &&& k == "current_map"@ ==> j.current_map == v
                &&& j.base_dir == base
            },
            Err(_) => true,
        },
{
    lemma_lookup_last(job_settings(text), i);
}

/// Each numeric setting of an accepted job is the value of the last line whose key is
/// that setting's own name when that value is a number.
pub proof fn lemma_job_number_settings_come_from_their_own_keys(text: Seq<char>, base: Seq<char>, i: int)
    requires
        spec_job(text, base) is Ok,
        last_of_key(job_settings(text), i),
        spec_is_number(job_settings(text)[i].1),
    ensures
        match spec_job(text, base) {
            Ok(j) => {
                let (k, v) = job_settings(text)[i];
                &&& k == "ir_limit_pct"@ ==> j.ir_limit_pct == v
                &&& k == "vdd"@ ==> j.vdd == v
                &&& k == "via_res"@ ==> j.via_res == v
                &&& k == "total_current"@ ==> j.total_current == v
                &&& k == "clock_ghz"@ ==> j.clock_ghz == v
                &&& k == "activity"@ ==> j.activity == v
                &&& k == "switch_t_ns"@ ==> j.switch_t_ns == v
                &&& k == "switch_dur_ns"@ ==> j.switch_dur_ns == v
                &&& k == "node_cap_pf"@ ==> j.node_cap_pf == v
            },
            Err(_) => true,
        },
{
    lemma_lookup_last(job_settings(text), i);
}

/// A file setting that no line names is empty in an accepted job.
pub proof fn lemma_job_unset_text_settings_are_empty(text: Seq<char>, base: Seq<char>, k: Seq<char>)
    requires
        spec_job(text, base) is Ok,
        unset(job_settings(text), k),
    ensures
        match spec_job(text, base) {
            Ok(j) => {
                &&& k == "pdn"@ ==> j.pdn.len() == 0
                &&& k == "def"@ ==> j.def.len() == 0
                &&& k == "lef"@ ==> j.lef.len() == 0
                &&& k == "cell_lef"@ ==> j.cell_lef.len() == 0
                &&& k == "pad_layer"@ ==> j.pad_layer.len() == 0
                &&& k == "power_map"@ ==> j.power_map.len() == 0
                &&& k == "decap_map"@ ==> j.decap_map.len() == 0
                &&& k == "current_map"@ ==> j.current_map.len() == 0
            },
            Err(_) => true,
        },
{
    lemma_lookup_unset(job_settings(text), k);
}

/// A numeric setting that no line names, or whose last line's value is not a number,
/// takes its default: `ir_limit_pct` 5.0, `vdd` 1.8, `via_res` 5.0, `total_current` 0.0,
/// `clock_ghz` 1.0, `activity` 0.2, `switch_t_ns` 1.0, `switch_dur_ns` 0.1,
/// `node_cap_pf` 0.0.
pub proof fn lemma_job_number_defaults(text: Seq<char>, base: Seq<char>, k: Seq<char>)
    requires
        spec_job(text, base) is Ok,
        unset(job_settings(text), k) || exists|i: int|
            last_of_key(job_settings(text), i) && job_settings(text)[i].0 == k && !spec_is_number(
                #[trigger] job_settings(text)[i].1,
            ),
    ensures
        match spec_job(text, base) {
            Ok(j) => {
                &&& k == "ir_limit_pct"@ ==> j.ir_limit_pct == "5.0"@
                &&& k == "vdd"@ ==> j.vdd == "1.8"@
                &&& k == "via_res"@ ==> j.via_res == "5.0"@
                &&& k == "total_current"@ ==> j.total_current == "0.0"@
                &&& k == "clock_ghz"@ ==> j.clock_ghz == "1.0"@
                &&& k == "activity"@ ==> j.activity == "0.2"@
                &&& k == "switch_t_ns"@ ==> j.switch_t_ns == "1.0"@
                &&& k == "switch_dur_ns"@ ==> j.switch_dur_ns == "0.1"@
                &&& k == "node_cap_pf"@ ==> j.node_cap_pf == "0.0"@
            },
            Err(_) => true,
        },
{
    let kv = job_settings(text);
    if unset(kv, k) {
        lemma_lookup_unset(kv, k);
    } else {
        let i = choose|i: int| last_of_key(kv, i) && kv[i].0 == k && !spec_is_number(#[trigger] kv[i].1);
        lemma_lookup_last(kv, i);
    }
}

/// A job line `<key>: <value>` (key and value without surrounding white space, no `:`
/// in the key, no `#` in either) adds the setting of the key, lower-cased, to the
/// value; a line with words but no `:` is an error; and once there is an error no
/// later line changes anything.
pub proof fn lemma_job_line_sets_key_to_value(kv: KeyValues, key: Seq<char>, value: Seq<char>, raw: Seq<char>)
    requires
        key.len() > 0,
        value.len() > 0,
        crate::text::is_trimmed(key),
        crate::text::is_trimmed(value),
        !key.contains(':'),
        !key.contains('#'),
        !value.contains('#'),
    ensures
        job_line((kv, None), key + seq![':', ' '] + value) == (
            kv.push((spec_lowercase(key), value)),
            None::<Seq<char>>,
        ),
        (!raw.contains('#') && !raw.contains(':') && spec_trim(raw).len() > 0) ==> job_line((kv, None), raw).1 is Some,
        forall|e: Seq<char>| job_line((kv, Some(e)), raw) == (kv, Some(e)),
{
    let line = key + seq![':', ' '] + value;
    let n = key.len() as int;
    assert forall|j: int| 0 <= j < line.len() implies line[j] != '#' by {
        if j < n {
            assert(line[j] == key[j]);
        } else if j >= n + 2 {
            assert(line[j] == value[j - n - 2]);
        }
    }
    crate::text::lemma_first_index_of(line, '#');
    assert(spec_strip_comment(line) =~= line);
    assert(line[0] == key[0]);
    assert(line.last() == value.last());
    crate::text::lemma_trim_keeps_trimmed_text(line, seq![], seq![]);
    crate::text::lemma_first_index_of(line, ':');
    assert(line[n] == ':');
    let i = first_index_of(line, ':');
    if i < n {
        assert(line[i] == key[i]);
        assert(key.contains(':'));
    }
    assert(i == n);
    assert(line.take(n) =~= key);
    crate::text::lemma_trim_keeps_trimmed_text(key, seq![], seq![]);
    assert(line.skip(n + 1) =~= seq![' '] + value + Seq::<char>::empty());
    assert forall|j: int| 0 <= j < seq![' '].len() implies crate::text::is_ws(#[trigger] seq![' '][j]) by {}
    crate::text::lemma_trim_keeps_trimmed_text(value, seq![' '], seq![]);
    if !raw.contains('#') && !raw.contains(':') && spec_trim(raw).len() > 0 {
        crate::text::lemma_first_index_of(raw, '#');
        assert(spec_strip_comment(raw) =~= raw);
        let l = spec_trim(raw);
        crate::text::lemma_first_index_of(l, ':');
        crate::text::lemma_trim_takes_from_the_text(raw);
    }
}

} // verus!
