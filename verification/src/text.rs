//! Character-level text handling shared by every reader: whitespace, lines,
//! comments, tokens, and integer/number token syntax.

use vstd::prelude::*;

verus! {

broadcast use vstd::string::group_string_axioms;

/// Unicode `White_Space`, the property `char::is_whitespace` tests.
pub open spec fn is_ws(c: char) -> bool {
    ||| c == '\t' || c == '\n' || c == '\u{0B}' || c == '\u{0C}' || c == '\r' || c == ' '
    ||| c == '\u{85}' || c == '\u{A0}' || c == '\u{1680}'
    ||| ('\u{2000}' <= c && c <= '\u{200A}')
    ||| c == '\u{2028}' || c == '\u{2029}' || c == '\u{202F}' || c == '\u{205F}' || c == '\u{3000}'
}

/// Whether `c` is white space (Unicode `White_Space`).
pub fn is_whitespace(c: char) -> (b: bool)
    ensures
        b == is_ws(c),
{
    c == '\t' || c == '\n' || c == '\u{0B}' || c == '\u{0C}' || c == '\r' || c == ' '
        || c == '\u{85}' || c == '\u{A0}' || c == '\u{1680}' || ('\u{2000}' <= c && c <= '\u{200A}')
        || c == '\u{2028}' || c == '\u{2029}' || c == '\u{202F}' || c == '\u{205F}'
        || c == '\u{3000}'
}

/// The characters of a string, in order.
pub fn chars_of(s: &str) -> (v: Vec<char>)
    ensures
        v@ == s@,
{
    let mut v: Vec<char> = Vec::new();
    for c in it: s.chars()
        invariant
            it.seq() == s@,
            v@ == it.seq().take(it.index() as int),
    {
        v.push(c);
    }
    v
}


/// Builds a `String` holding exactly the given characters
/// (std's `FromIterator<&char>` for `String`).
#[verifier::external_body]
pub(crate) fn string_of(v: &[char]) -> (s: String)
    ensures
        s@ == v@,
{
    v.iter().collect()
}

/// The part of a line before its first `#`.
pub open spec fn spec_strip_comment(s: Seq<char>) -> Seq<char> {
    s.take(first_index_of(s, '#'))
}

/// Index of the first occurrence of `c` in `s`, or `s.len()` when there is none.
pub open spec fn first_index_of(s: Seq<char>, c: char) -> int
    decreases s.len(),
{
    if s.len() == 0 {
        0
    } else if s[0] == c {
        0
    } else {
        1 + first_index_of(s.drop_first(), c)
    }
}

pub proof fn lemma_first_index_of(s: Seq<char>, c: char)
    ensures
        0 <= first_index_of(s, c) <= s.len(),
        forall|j: int| 0 <= j < first_index_of(s, c) ==> s[j] != c,
        first_index_of(s, c) < s.len() ==> s[first_index_of(s, c)] == c,
        first_index_of(s, c) == s.len() <==> !s.contains(c),
    decreases s.len(),
{
    if s.len() > 0 {
        lemma_first_index_of(s.drop_first(), c);
        if s[0] != c {
            assert forall|j: int| 0 <= j < first_index_of(s, c) implies s[j] != c by {
                if j > 0 {
                    assert(s[j] == s.drop_first()[j - 1]);
                }
            }
            if s.drop_first().contains(c) {
                let k = choose|k: int| 0 <= k < s.drop_first().len() && s.drop_first()[k] == c;
                assert(s[k + 1] == c);
            }
            if s.contains(c) {
                let k = choose|k: int| 0 <= k < s.len() && s[k] == c;
                assert(s.drop_first()[k - 1] == c);
            }
        }
    }
}

/// Finds the first occurrence of `c` in `v`; `v.len()` when there is none.
pub fn find_char(v: &[char], c: char) -> (i: usize)
    ensures
        i == first_index_of(v@, c),
{
    proof {
        lemma_first_index_of(v@, c);
    }
    let mut i: usize = 0;
    while i < v.len()
        invariant
            i <= v@.len(),
            forall|j: int| 0 <= j < i ==> v@[j] != c,
            0 <= first_index_of(v@, c) <= v@.len(),
            forall|j: int| 0 <= j < first_index_of(v@, c) ==> v@[j] != c,
            first_index_of(v@, c) < v@.len() ==> v@[first_index_of(v@, c)] == c,
        decreases v.len() - i,
    {
        if v[i] == c {
            return i;
        }
        i += 1;
    }
    i
}

/// The part of `line` before its first `#` comment marker.
pub fn strip_comment(line: &str) -> (r: &str)
    ensures
        r@ == spec_strip_comment(line@),
{
    let v = chars_of(line);
    let i = find_char(v.as_slice(), '#');
    proof {
        lemma_first_index_of(line@, '#');
    }
    line.substring_char(0, i)
}


/// Mapping a sequence after a push is mapping it before, then pushing the image.
pub broadcast proof fn lemma_map_push<A, B>(s: Seq<A>, x: A, f: spec_fn(A) -> B)
    ensures
        #[trigger] s.push(x).map_values(f) == s.map_values(f).push(f(x)),
{
    assert(s.push(x).map_values(f) =~= s.map_values(f).push(f(x)));
}

/// The views of a sequence of character vectors.
pub open spec fn seqs(v: Seq<Vec<char>>) -> Seq<Seq<char>> {
    v.map_values(|l: Vec<char>| l@)
}

/// A line without the `\r` of a `\r\n` ending.
pub open spec fn drop_cr(l: Seq<char>) -> Seq<char> {
    if l.len() > 0 && l.last() == '\r' {
        l.drop_last()
    } else {
        l
    }
}

/// Reading `s` left to right: the lines already ended by `\n`, and the line still open.
pub open spec fn lines_state(s: Seq<char>) -> (Seq<Seq<char>>, Seq<char>)
    decreases s.len(),
{
    if s.len() == 0 {
        (seq![], seq![])
    } else {
        let (done, cur) = lines_state(s.drop_last());
        if s.last() == '\n' {
            (done.push(drop_cr(cur)), seq![])
        } else {
            (done, cur.push(s.last()))
        }
    }
}

/// The lines of `s` as `str::lines` yields them: split at `\n`, a `\r` before the
/// `\n` dropped, and no empty line after a final `\n`.
pub open spec fn spec_lines(s: Seq<char>) -> Seq<Seq<char>> {
    let (done, cur) = lines_state(s);
    if cur.len() > 0 {
        done.push(cur)
    } else {
        done
    }
}

/// Splits text into lines (see `spec_lines`).
pub fn lines_of(v: &[char]) -> (res: Vec<Vec<char>>)
    ensures
        seqs(res@) == spec_lines(v@),
{
    let mut done: Vec<Vec<char>> = Vec::new();
    let mut cur: Vec<char> = Vec::new();
    let mut i: usize = 0;
    while i < v.len()
        invariant
            i <= v@.len(),
            (seqs(done@), cur@) == lines_state(v@.take(i as int)),
        decreases v.len() - i,
    {
        assert(v@.take(i + 1).drop_last() =~= v@.take(i as int));
        let c = v[i];
        if c == '\n' {
            if cur.len() > 0 && cur[cur.len() - 1] == '\r' {
                cur.pop();
            }
            done.push(cur);
            cur = Vec::new();
        } else {
            cur.push(c);
        }
        proof {
            assert(seqs(done@) =~= lines_state(v@.take(i + 1)).0);
        }
        i += 1;
    }
    assert(v@.take(i as int) =~= v@);
    if cur.len() > 0 {
        done.push(cur);
    }
    assert(seqs(done@) =~= spec_lines(v@));
    done
}

/// Reading `s` left to right: the words already ended by white space, and the word
/// still open.
pub open spec fn words_state(s: Seq<char>) -> (Seq<Seq<char>>, Seq<char>)
    decreases s.len(),
{
    if s.len() == 0 {
        (seq![], seq![])
    } else {
        let (done, cur) = words_state(s.drop_last());
        if is_ws(s.last()) {
            if cur.len() > 0 {
                (done.push(cur), seq![])
            } else {
                (done, cur)
            }
        } else {
            (done, cur.push(s.last()))
        }
    }
}

/// The white-space separated words of `s`, as `str::split_whitespace` yields them.
pub open spec fn spec_words(s: Seq<char>) -> Seq<Seq<char>> {
    let (done, cur) = words_state(s);
    if cur.len() > 0 {
        done.push(cur)
    } else {
        done
    }
}

/// Splits text into its white-space separated words (see `spec_words`).
pub fn words_of(v: &[char]) -> (res: Vec<Vec<char>>)
    ensures
        seqs(res@) == spec_words(v@),
{
    let mut done: Vec<Vec<char>> = Vec::new();
    let mut cur: Vec<char> = Vec::new();
    let mut i: usize = 0;
    while i < v.len()
        invariant
            i <= v@.len(),
            (seqs(done@), cur@) == words_state(v@.take(i as int)),
        decreases v.len() - i,
    {
        assert(v@.take(i + 1).drop_last() =~= v@.take(i as int));
        let c = v[i];
        if is_whitespace(c) {
            if cur.len() > 0 {
                done.push(cur);
                cur = Vec::new();
            }
        } else {
            cur.push(c);
        }
        proof {
            assert(seqs(done@) =~= words_state(v@.take(i + 1)).0);
        }
        i += 1;
    }
    assert(v@.take(i as int) =~= v@);
    if cur.len() > 0 {
        done.push(cur);
    }
    assert(seqs(done@) =~= spec_words(v@));
    done
}

/// Every word is non-empty and free of white space.
pub proof fn lemma_words_are_clean(s: Seq<char>)
    ensures
        forall|k: int|
            0 <= k < spec_words(s).len() ==> {
                &&& #[trigger] spec_words(s)[k].len() > 0
                &&& forall|j: int| 0 <= j < spec_words(s)[k].len() ==> !is_ws(spec_words(s)[k][j])
            },
{
    lemma_words_state_clean(s);
    let (done, cur) = words_state(s);
    if cur.len() > 0 {
        assert forall|k: int| 0 <= k < done.push(cur).len() implies {
            &&& #[trigger] done.push(cur)[k].len() > 0
            &&& forall|j: int| 0 <= j < done.push(cur)[k].len() ==> !is_ws(done.push(cur)[k][j])
        } by {
            if k < done.len() {
                assert(done.push(cur)[k] == done[k]);
            }
        }
    }
}

proof fn lemma_words_state_clean(s: Seq<char>)
    ensures
        forall|k: int|
            0 <= k < words_state(s).0.len() ==> {
                &&& #[trigger] words_state(s).0[k].len() > 0
                &&& forall|j: int| 0 <= j < words_state(s).0[k].len() ==> !is_ws(words_state(s).0[k][j])
            },
        forall|j: int| 0 <= j < words_state(s).1.len() ==> !is_ws(words_state(s).1[j]),
    decreases s.len(),
{
    if s.len() > 0 {
        lemma_words_state_clean(s.drop_last());
        let (done, cur) = words_state(s.drop_last());
        let c = s.last();
        if is_ws(c) {
            if cur.len() > 0 {
                assert forall|k: int| 0 <= k < done.push(cur).len() implies {
                    &&& #[trigger] done.push(cur)[k].len() > 0
                    &&& forall|j: int| 0 <= j < done.push(cur)[k].len() ==> !is_ws(done.push(cur)[k][j])
                } by {
                    if k < done.len() {
                        assert(done.push(cur)[k] == done[k]);
                    }
                }
            }
        } else {
            assert forall|j: int| 0 <= j < cur.push(c).len() implies !is_ws(cur.push(c)[j]) by {
                if j < cur.len() {
                    assert(cur.push(c)[j] == cur[j]);
                }
            }
        }
    }
}


/// The characters of `s` that are not white space, in order.
pub open spec fn without_ws(s: Seq<char>) -> Seq<char>
    decreases s.len(),
{
    if s.len() == 0 {
        seq![]
    } else if is_ws(s.last()) {
        without_ws(s.drop_last())
    } else {
        without_ws(s.drop_last()).push(s.last())
    }
}

/// The words `ws` written one after another.
pub open spec fn concat_words(ws: Seq<Seq<char>>) -> Seq<char>
    decreases ws.len(),
{
    if ws.len() == 0 {
        seq![]
    } else {
        concat_words(ws.drop_last()) + ws.last()
    }
}

proof fn lemma_words_state_keep_text(s: Seq<char>)
    ensures
        concat_words(words_state(s).0) + words_state(s).1 == without_ws(s),
    decreases s.len(),
{
    if s.len() > 0 {
        lemma_words_state_keep_text(s.drop_last());
        let (done, cur) = words_state(s.drop_last());
        let c = s.last();
        if is_ws(c) {
            if cur.len() > 0 {
                assert(done.push(cur).drop_last() =~= done);
                assert(concat_words(done.push(cur)) + Seq::<char>::empty() =~= concat_words(done) + cur);
            }
        } else {
            assert(concat_words(done) + cur.push(c) =~= (concat_words(done) + cur).push(c));
        }
    } else {
        assert(concat_words(Seq::<Seq<char>>::empty()) + Seq::<char>::empty() =~= Seq::<char>::empty());
    }
}

/// Splitting into words loses and adds nothing but white space: the words, written
/// one after another, are the text with its white space taken out.
pub proof fn lemma_words_keep_the_text(s: Seq<char>)
    ensures
        concat_words(spec_words(s)) == without_ws(s),
{
    lemma_words_state_keep_text(s);
    let (done, cur) = words_state(s);
    if cur.len() > 0 {
        assert(done.push(cur).drop_last() =~= done);
    } else {
        assert(concat_words(done) + cur =~= concat_words(done));
    }
}

/// `s` with every `\r\n` line ending written as `\n`.
pub open spec fn unix_endings(s: Seq<char>) -> Seq<char>
    decreases s.len(),
{
    if s.len() == 0 {
        seq![]
    } else if s.last() == '\n' {
        drop_cr(unix_endings(s.drop_last())).push('\n')
    } else {
        unix_endings(s.drop_last()).push(s.last())
    }
}

/// The lines `ls`, each followed by `\n`.
pub open spec fn join_lines(ls: Seq<Seq<char>>) -> Seq<char>
    decreases ls.len(),
{
    if ls.len() == 0 {
        seq![]
    } else {
        join_lines(ls.drop_last()) + ls.last().push('\n')
    }
}

pub open spec fn no_newline(l: Seq<char>) -> bool {
    forall|j: int| 0 <= j < l.len() ==> l[j] != '\n'
}

proof fn lemma_lines_state_keep_text(s: Seq<char>)
    ensures
        join_lines(lines_state(s).0) + lines_state(s).1 == unix_endings(s),
        no_newline(lines_state(s).1),
        forall|k: int| 0 <= k < lines_state(s).0.len() ==> no_newline(#[trigger] lines_state(s).0[k]),
        join_lines(lines_state(s).0).len() == 0 || join_lines(lines_state(s).0).last() == '\n',
    decreases s.len(),
{
    if s.len() > 0 {
        lemma_lines_state_keep_text(s.drop_last());
        let (done, cur) = lines_state(s.drop_last());
        let c = s.last();
        let j = join_lines(done);
        if c == '\n' {
            let d = done.push(drop_cr(cur));
            assert(d.drop_last() =~= done);
            if cur.len() > 0 {
                assert((j + cur).last() == cur.last());
                if cur.last() == '\r' {
                    assert((j + cur).drop_last() =~= j + cur.drop_last());
                }
            } else {
                assert(j + cur =~= j);
            }
            assert(drop_cr(j + cur) =~= j + drop_cr(cur));
            assert(join_lines(d) + Seq::<char>::empty() =~= (j + drop_cr(cur)).push('\n'));
            assert forall|k: int| 0 <= k < d.len() implies no_newline(#[trigger] d[k]) by {
                if k < done.len() {
                    assert(d[k] == done[k]);
                } else {
                    assert forall|q: int| 0 <= q < drop_cr(cur).len() implies drop_cr(cur)[q] != '\n' by {
                        assert(drop_cr(cur)[q] == cur[q]);
                    }
                }
            }
        } else {
            assert(j + cur.push(c) =~= (j + cur).push(c));
            assert forall|q: int| 0 <= q < cur.push(c).len() implies cur.push(c)[q] != '\n' by {
                if q < cur.len() {
                    assert(cur.push(c)[q] == cur[q]);
                }
            }
        }
    } else {
        assert(join_lines(Seq::<Seq<char>>::empty()) + Seq::<char>::empty() =~= Seq::<char>::empty());
    }
}

/// Splitting into lines loses nothing but line endings: no line holds a `\n`, and the
/// lines, each followed by `\n`, are the text with `\r\n` written as `\n` and a
/// final `\n` added when it had none.
pub proof fn lemma_lines_keep_the_text(s: Seq<char>)
    ensures
        forall|k: int| 0 <= k < spec_lines(s).len() ==> no_newline(#[trigger] spec_lines(s)[k]),
        join_lines(spec_lines(s)) == (if unix_endings(s).len() > 0 && unix_endings(s).last() != '\n' {
            unix_endings(s).push('\n')
        } else {
            unix_endings(s)
        }),
{
    lemma_lines_state_keep_text(s);
    let (done, cur) = lines_state(s);
    let j = join_lines(done);
    if cur.len() > 0 {
        let d = done.push(cur);
        assert(d.drop_last() =~= done);
        assert((j + cur).last() == cur.last());
        assert(join_lines(d) =~= (j + cur).push('\n'));
        assert forall|k: int| 0 <= k < d.len() implies no_newline(#[trigger] d[k]) by {
            if k < done.len() {
                assert(d[k] == done[k]);
            }
        }
    } else {
        assert(j + cur =~= j);
    }
}

/// Whether the characters `t` spell exactly the string `lit`.
pub fn eq_lit(t: &[char], lit: &str) -> (b: bool)
    ensures
        b == (t@ == lit@),
{
    let l = chars_of(lit);
    if t.len() != l.len() {
        return false;
    }
    let mut i: usize = 0;
    while i < t.len()
        invariant
            i <= t@.len(),
            t@.len() == l@.len(),
            l@ == lit@,
            forall|j: int| 0 <= j < i ==> t@[j] == l@[j],
        decreases t.len() - i,
    {
        if t[i] != l[i] {
            assert(t@[i as int] != l@[i as int]);
            return false;
        }
        i += 1;
    }
    assert(t@ =~= l@);
    true
}

/// Appends the characters of `s` to `out`.
pub fn push_str(out: &mut Vec<char>, s: &str)
    ensures
        final(out)@ == old(out)@ + s@,
{
    let l = chars_of(s);
    let mut i: usize = 0;
    while i < l.len()
        invariant
            i <= l@.len(),
            out@ == old(out)@ + l@.take(i as int),
        decreases l.len() - i,
    {
        out.push(l[i]);
        assert(l@.take(i + 1) =~= l@.take(i as int).push(l@[i as int]));
        i += 1;
    }
    assert(l@.take(i as int) =~= l@);
}

/// Appends the characters `s` to `out`.
pub fn push_chars(out: &mut Vec<char>, s: &[char])
    ensures
        final(out)@ == old(out)@ + s@,
{
    let mut i: usize = 0;
    while i < s.len()
        invariant
            i <= s@.len(),
            out@ == old(out)@ + s@.take(i as int),
        decreases s.len() - i,
    {
        out.push(s[i]);
        assert(s@.take(i + 1) =~= s@.take(i as int).push(s@[i as int]));
        i += 1;
    }
    assert(s@.take(i as int) =~= s@);
}

/// The words of one line once its comment is removed.
pub open spec fn line_words(line: Seq<char>) -> Seq<Seq<char>> {
    spec_words(spec_strip_comment(line))
}

/// The words of one line once its comment is removed (see `line_words`).
pub fn line_words_of(line: &[char]) -> (res: Vec<Vec<char>>)
    ensures
        seqs(res@) == line_words(line@),
{
    let k = find_char(line, '#');
    proof {
        lemma_first_index_of(line@, '#');
    }
    let (head, _) = line.split_at(k);
    words_of(head)
}

/// `{:?}` of a string: the string in double quotes with its special characters escaped.
pub uninterp spec fn spec_debug_str(s: Seq<char>) -> Seq<char>;

/// `format!("{:?}", s)` for a string slice.
#[verifier::external_body]
pub(crate) fn debug_str(s: &str) -> (r: String)
    ensures
        r@ == spec_debug_str(s@),
{
    format!("{:?}", s)
}


/// Number of leading white-space characters of `s`.
pub open spec fn lead_ws(s: Seq<char>) -> int
    decreases s.len(),
{
    if s.len() > 0 && is_ws(s[0]) {
        1 + lead_ws(s.drop_first())
    } else {
        0
    }
}

/// Number of trailing white-space characters of `s`.
pub open spec fn trail_ws(s: Seq<char>) -> int
    decreases s.len(),
{
    if s.len() > 0 && is_ws(s.last()) {
        1 + trail_ws(s.drop_last())
    } else {
        0
    }
}

/// `s` without leading and trailing white space (`str::trim`).
pub open spec fn spec_trim(s: Seq<char>) -> Seq<char> {
    let a = s.skip(lead_ws(s));
    a.take(a.len() - trail_ws(a))
}

proof fn lemma_lead_ws(s: Seq<char>)
    ensures
        0 <= lead_ws(s) <= s.len(),
        forall|j: int| 0 <= j < lead_ws(s) ==> is_ws(s[j]),
        lead_ws(s) < s.len() ==> !is_ws(s[lead_ws(s)]),
    decreases s.len(),
{
    if s.len() > 0 && is_ws(s[0]) {
        lemma_lead_ws(s.drop_first());
        assert forall|j: int| 0 <= j < lead_ws(s) implies is_ws(s[j]) by {
            if j > 0 {
                assert(s[j] == s.drop_first()[j - 1]);
            }
        }
    }
}

proof fn lemma_trail_ws(s: Seq<char>)
    ensures
        0 <= trail_ws(s) <= s.len(),
        forall|j: int| s.len() - trail_ws(s) <= j < s.len() ==> is_ws(s[j]),
        trail_ws(s) < s.len() ==> !is_ws(s[s.len() - trail_ws(s) - 1]),
    decreases s.len(),
{
    if s.len() > 0 && is_ws(s.last()) {
        lemma_trail_ws(s.drop_last());
        assert forall|j: int| s.len() - trail_ws(s) <= j < s.len() implies is_ws(s[j]) by {
            if j < s.len() - 1 {
                assert(s[j] == s.drop_last()[j]);
            }
        }
        if trail_ws(s) < s.len() {
            assert(s[s.len() - trail_ws(s) - 1] == s.drop_last()[s.len() - trail_ws(s) - 1]);
        }
    }
}

proof fn lemma_lead_ws_exact(s: Seq<char>, k: int)
    requires
        0 <= k <= s.len(),
        forall|j: int| 0 <= j < k ==> is_ws(s[j]),
        k < s.len() ==> !is_ws(s[k]),
    ensures
        lead_ws(s) == k,
    decreases s.len(),
{
    if k > 0 {
        assert forall|j: int| 0 <= j < k - 1 implies is_ws(s.drop_first()[j]) by {
            assert(s.drop_first()[j] == s[j + 1]);
        }
        if k - 1 < s.len() - 1 {
            assert(s.drop_first()[k - 1] == s[k]);
        }
        lemma_lead_ws_exact(s.drop_first(), k - 1);
    }
}

proof fn lemma_trail_ws_exact(s: Seq<char>, k: int)
    requires
        0 <= k <= s.len(),
        forall|j: int| s.len() - k <= j < s.len() ==> is_ws(s[j]),
        k < s.len() ==> !is_ws(s[s.len() - k - 1]),
    ensures
        trail_ws(s) == k,
    decreases s.len(),
{
    if k > 0 {
        let d = s.drop_last();
        assert forall|j: int| d.len() - (k - 1) <= j < d.len() implies is_ws(d[j]) by {
            assert(d[j] == s[j]);
        }
        if k - 1 < d.len() {
            assert(d[d.len() - (k - 1) - 1] == s[s.len() - k - 1]);
        }
        lemma_trail_ws_exact(d, k - 1);
    }
}

/// Trimming only takes characters away: every character of the trimmed text is one
/// of the text's.
pub proof fn lemma_trim_takes_from_the_text(s: Seq<char>)
    ensures
        forall|c: char| spec_trim(s).contains(c) ==> s.contains(c),
{
    lemma_lead_ws(s);
    let a = s.skip(lead_ws(s));
    lemma_trail_ws(a);
    assert forall|c: char| spec_trim(s).contains(c) implies s.contains(c) by {
        let q = choose|q: int| 0 <= q < spec_trim(s).len() && spec_trim(s)[q] == c;
        assert(s[q + lead_ws(s)] == c);
    }
}

/// `s` neither starts nor ends with white space.
pub open spec fn is_trimmed(s: Seq<char>) -> bool {
    s.len() == 0 || (!is_ws(s[0]) && !is_ws(s.last()))
}

/// Trimming leaves text without surrounding white space as it is, and takes off
/// exactly the white space around it otherwise.
pub proof fn lemma_trim_keeps_trimmed_text(s: Seq<char>, pre: Seq<char>, post: Seq<char>)
    requires
        is_trimmed(s),
        s.len() > 0,
        forall|j: int| 0 <= j < pre.len() ==> is_ws(#[trigger] pre[j]),
        forall|j: int| 0 <= j < post.len() ==> is_ws(#[trigger] post[j]),
    ensures
        spec_trim(s) == s,
        spec_trim(pre + s + post) == s,
{
    lemma_lead_ws_exact(s, 0);
    let a = s.skip(0);
    assert(a =~= s);
    lemma_trail_ws_exact(a, 0);
    assert(a.take(a.len() as int) =~= s);
    let t = pre + s + post;
    lemma_lead_ws_exact(t, pre.len() as int);
    let b = t.skip(pre.len() as int);
    assert(b =~= s + post);
    assert forall|j: int| b.len() - post.len() <= j < b.len() implies is_ws(b[j]) by {
        assert(b[j] == post[j - s.len()]);
    }
    assert(b[b.len() - post.len() - 1] == s.last());
    lemma_trail_ws_exact(b, post.len() as int);
    assert(b.take(b.len() - post.len()) =~= s);
}

/// `s` without leading and trailing white space (see `spec_trim`).
pub fn trim(s: &[char]) -> (r: Vec<char>)
    ensures
        r@ == spec_trim(s@),
{
    let mut a: usize = 0;
    while a < s.len() && is_whitespace(s[a])
        invariant
            a <= s@.len(),
            forall|j: int| 0 <= j < a ==> is_ws(s@[j]),
        decreases s.len() - a,
    {
        a += 1;
    }
    proof {
        lemma_lead_ws_exact(s@, a as int);
    }
    let mut b: usize = s.len();
    while b > a && is_whitespace(s[b - 1])
        invariant
            a <= b <= s@.len(),
            forall|j: int| b <= j < s@.len() ==> is_ws(s@[j]),
        decreases b,
    {
        b -= 1;
    }
    let ghost sk = s@.skip(a as int);
    proof {
        assert forall|j: int| sk.len() - (s@.len() - b) <= j < sk.len() implies is_ws(sk[j]) by {
            assert(sk[j] == s@[j + a]);
        }
        if s@.len() - b < sk.len() {
            assert(sk[sk.len() - (s@.len() - b) - 1] == s@[b - 1]);
        }
        lemma_trail_ws_exact(sk, s@.len() - b);
    }
    let mut r: Vec<char> = Vec::new();
    let mut i = a;
    while i < b
        invariant
            a <= i <= b <= s@.len(),
            r@ == s@.subrange(a as int, i as int),
        decreases b - i,
    {
        r.push(s[i]);
        assert(s@.subrange(a as int, i + 1) =~= s@.subrange(a as int, i as int).push(s@[i as int]));
        i += 1;
    }
    assert(r@ =~= spec_trim(s@));
    r
}

/// `str::to_lowercase`: every character mapped to its Unicode lower case.
pub uninterp spec fn spec_lowercase(s: Seq<char>) -> Seq<char>;

/// An ASCII character in lower case (`char::to_ascii_lowercase`).
pub open spec fn ascii_lower(c: char) -> char {
    if 'A' <= c && c <= 'Z' { ((c as u32) + 32) as char } else { c }
}

/// `str::to_lowercase`. Of ASCII text it states what the documentation gives: each
/// character is mapped on its own, `A`-`Z` to `a`-`z`, everything else unchanged.
#[verifier::external_body]
pub(crate) fn lowercase(s: &str) -> (r: String)
    ensures
        r@ == spec_lowercase(s@),
        (forall|i: int| 0 <= i < s@.len() ==> (#[trigger] s@[i] as u32) < 128) ==> r@ == s@.map_values(
            |c: char| ascii_lower(c),
        ),
{
    s.to_lowercase()
}


/// `s` without any trailing `c` (`str::trim_end_matches` with one character).
pub open spec fn trim_end_char(s: Seq<char>, c: char) -> Seq<char>
    decreases s.len(),
{
    if s.len() > 0 && s.last() == c {
        trim_end_char(s.drop_last(), c)
    } else {
        s
    }
}

/// `s` without any trailing `c` (see `trim_end_char`).
pub fn trim_end(s: &[char], c: char) -> (r: &[char])
    ensures
        r@ == trim_end_char(s@, c),
{
    let mut n = s.len();
    assert(s@.take(n as int) =~= s@);
    while n > 0 && s[n - 1] == c
        invariant
            n <= s@.len(),
            trim_end_char(s@, c) == trim_end_char(s@.take(n as int), c),
        decreases n,
    {
        assert(s@.take(n as int).drop_last() =~= s@.take(n - 1));
        n -= 1;
    }
    let (a, _) = s.split_at(n);
    assert(a@ == s@.take(n as int));
    a
}


/// A vector holding the characters of `s`.
pub fn slice_to_vec(s: &[char]) -> (v: Vec<char>)
    ensures
        v@ == s@,
{
    let mut v: Vec<char> = Vec::new();
    push_chars(&mut v, s);
    v
}

} // verus!
