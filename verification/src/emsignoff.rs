//! Per-net current map for electromigration sign-off of signal nets:
//! `<net> <avg_mA> [rms_mA] [peak_mA]` per line, `#` comments.
//!
//! Reading is forgiving: a line without a numeric average is skipped, and an RMS or
//! peak value is kept only when it is a number. Values are number tokens (mA); a
//! later line for a net overrides an earlier one.

use vstd::prelude::*;
use crate::lef::lef_words;
use crate::num::{is_number, spec_is_number};
use crate::pdn::pairs_view;
use crate::text::{chars_of, find_char, lemma_first_index_of, lines_of, seqs, spec_lines, string_of, trim, words_of};

verus! {

broadcast use {vstd::string::group_string_axioms, crate::text::lemma_map_push};

/// Per-net currents (mA, number tokens) in file order, and the average assumed for
/// nets absent from the map (`0.0`: skip them).
#[derive(Debug, Clone)]
pub struct CurrentMap {
    pub avg: Vec<(String, String)>,
    pub rms: Vec<(String, String)>,
    pub peak: Vec<(String, String)>,
    pub default_avg_ma: String,
}

pub type CurState = (Seq<(Seq<char>, Seq<char>)>, Seq<(Seq<char>, Seq<char>)>, Seq<(Seq<char>, Seq<char>)>);

/// One line (its words) applied to the map so far.
pub open spec fn cur_line(st: CurState, k: Seq<Seq<char>>) -> CurState {
    if k.len() < 2 || !spec_is_number(k[1]) {
        st
    } else {
        let avg = st.0.push((k[0], k[1]));
        let rms = if k.len() > 2 && spec_is_number(k[2]) { st.1.push((k[0], k[2])) } else { st.1 };
        let peak = if k.len() > 3 && spec_is_number(k[3]) { st.2.push((k[0], k[3])) } else { st.2 };
        (avg, rms, peak)
    }
}

pub open spec fn cur_lines(lines: Seq<Seq<char>>) -> CurState
    decreases lines.len(),
{
    if lines.len() == 0 {
        (seq![], seq![], seq![])
    } else {
        cur_line(cur_lines(lines.drop_last()), lef_words(lines.last()))
    }
}

/// What reading a current map gives.
pub open spec fn spec_current_map(text: Seq<char>) -> CurState {
    cur_lines(spec_lines(text))
}

impl CurrentMap {
    /// Reads a current map (see `spec_current_map`); never fails.
    pub fn parse(text: &str) -> (m: CurrentMap)
        ensures
            (pairs_view(m.avg@), pairs_view(m.rms@), pairs_view(m.peak@)) == spec_current_map(text@),
            m.default_avg_ma@ == "0.0"@,
    {
        let chars = chars_of(text);
        let lines = lines_of(chars.as_slice());
        let ghost ls = seqs(lines@);
        let mut avg: Vec<(String, String)> = Vec::new();
        let mut rms: Vec<(String, String)> = Vec::new();
        let mut peak: Vec<(String, String)> = Vec::new();
        let mut i: usize = 0;
        while i < lines.len()
            invariant
                i <= lines@.len(),
                ls == seqs(lines@),
                (pairs_view(avg@), pairs_view(rms@), pairs_view(peak@)) == cur_lines(ls.take(i as int)),
            decreases lines.len() - i,
        {
            assert(ls.take(i + 1).drop_last() =~= ls.take(i as int));
            assert(ls.take(i + 1).last() == lines@[i as int]@);
            let k0 = find_char(lines[i].as_slice(), '#');
            proof {
                lemma_first_index_of(lines@[i as int]@, '#');
            }
            let (head, _) = lines[i].as_slice().split_at(k0);
            let tr = trim(head);
            let k = words_of(tr.as_slice());
            if k.len() >= 2 && is_number(k[1].as_slice()) {
                let net = string_of(k[0].as_slice());
                avg.push((net.clone(), string_of(k[1].as_slice())));
                if k.len() > 2 && is_number(k[2].as_slice()) {
                    rms.push((net.clone(), string_of(k[2].as_slice())));
                }
                if k.len() > 3 && is_number(k[3].as_slice()) {
                    peak.push((net.clone(), string_of(k[3].as_slice())));
                }
            }
            i += 1;
        }
        assert(ls.take(i as int) =~= ls);
        CurrentMap { avg, rms, peak, default_avg_ma: "0.0".to_string() }
    }
}

/// A current-map line `<net> <avg> [rms] [peak]` records, when its average is a
/// number, the average as the second word, the RMS as the third and the peak as the
/// fourth (each only when it is a number); a line whose average is not a number
/// records nothing.
pub proof fn lemma_current_line_fields(st: CurState, k: Seq<Seq<char>>)
    ensures
        (k.len() < 2 || !spec_is_number(k[1])) ==> cur_line(st, k) == st,
        (k.len() >= 2 && spec_is_number(k[1])) ==> {
            let r = cur_line(st, k);
            &&& r.0 == st.0.push((k[0], k[1]))
            &&& (k.len() >= 3 && spec_is_number(k[2])) ==> r.1 == st.1.push((k[0], k[2]))
            &&& !(k.len() >= 3 && spec_is_number(k[2])) ==> r.1 == st.1
            &&& (k.len() >= 4 && spec_is_number(k[3])) ==> r.2 == st.2.push((k[0], k[3]))
            &&& !(k.len() >= 4 && spec_is_number(k[3])) ==> r.2 == st.2
        },
{
}

/// The words of line `m` record an entry `e` in column `c` (1 = average, 2 = RMS,
/// 3 = peak).
pub open spec fn recorded_at(lines: Seq<Seq<char>>, m: int, c: int, e: (Seq<char>, Seq<char>)) -> bool {
    let k = lef_words(lines[m]);
    0 <= m < lines.len() && k.len() > c && spec_is_number(k[1]) && spec_is_number(k[c]) && e == (k[0], k[c])
}

/// Some line of `lines` records `e` in column `c`.
pub open spec fn has_source(lines: Seq<Seq<char>>, c: int, e: (Seq<char>, Seq<char>)) -> bool {
    exists|m: int| recorded_at(lines, m, c, e)
}

proof fn lemma_sources_of(lines: Seq<Seq<char>>, c: int, old_e: Seq<(Seq<char>, Seq<char>)>, new_e: Seq<(Seq<char>, Seq<char>)>)
    requires
        lines.len() > 0,
        forall|q: int| 0 <= q < old_e.len() ==> has_source(lines.drop_last(), c, #[trigger] old_e[q]),
        new_e == old_e || (new_e.len() == old_e.len() + 1 && new_e.drop_last() == old_e && recorded_at(
            lines,
            lines.len() - 1,
            c,
            new_e.last(),
        )),
    ensures
        forall|q: int| 0 <= q < new_e.len() ==> has_source(lines, c, #[trigger] new_e[q]),
{
    let d = lines.drop_last();
    assert forall|q: int| 0 <= q < new_e.len() implies has_source(lines, c, #[trigger] new_e[q]) by {
        if q < old_e.len() {
            assert(new_e[q] == old_e[q]);
            assert(has_source(d, c, old_e[q]));
            let m = choose|m: int| recorded_at(d, m, c, old_e[q]);
            assert(lines[m] == d[m]);
            assert(recorded_at(lines, m, c, new_e[q]));
        } else {
            assert(recorded_at(lines, lines.len() - 1, c, new_e[q]));
        }
    }
}

/// Every entry of a current map comes from one of its lines: an average entry is
/// `(first word, second word)`, an RMS entry `(first, third)` and a peak entry
/// `(first, fourth)` of a line whose average is a number.
pub proof fn lemma_current_map_entries_come_from_lines(lines: Seq<Seq<char>>)
    ensures
        forall|q: int| 0 <= q < cur_lines(lines).0.len() ==> has_source(lines, 1, #[trigger] cur_lines(lines).0[q]),
        forall|q: int| 0 <= q < cur_lines(lines).1.len() ==> has_source(lines, 2, #[trigger] cur_lines(lines).1[q]),
        forall|q: int| 0 <= q < cur_lines(lines).2.len() ==> has_source(lines, 3, #[trigger] cur_lines(lines).2[q]),
    decreases lines.len(),
{
    if lines.len() > 0 {
        let d = lines.drop_last();
        lemma_current_map_entries_come_from_lines(d);
        let st = cur_lines(d);
        let r = cur_lines(lines);
        assert(r == cur_line(st, lef_words(lines.last())));
        assert(lines[lines.len() - 1] == lines.last());
        let k = lef_words(lines.last());
        if k.len() >= 2 && spec_is_number(k[1]) {
            assert(r.0.drop_last() =~= st.0);
            if k.len() > 2 && spec_is_number(k[2]) {
                assert(r.1.drop_last() =~= st.1);
            }
            if k.len() > 3 && spec_is_number(k[3]) {
                assert(r.2.drop_last() =~= st.2);
            }
        }
        lemma_sources_of(lines, 1, st.0, r.0);
        lemma_sources_of(lines, 2, st.1, r.1);
        lemma_sources_of(lines, 3, st.2, r.2);
    }
}

} // verus!
