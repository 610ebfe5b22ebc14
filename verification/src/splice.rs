use vstd::prelude::*;
use vstd::string::*;
use crate::text::{push_char, spec_titleize, titleize};

verus! {

// ---------------------------------------------------------------------
// The line grammar: the anchor marker and the terminal closing directive.
// ---------------------------------------------------------------------

/// Whitespace that may surround the marker word on its line.
pub open spec fn is_ws(c: char) -> bool {
    c == ' ' || c == '\t' || c == '\r'
}

/// The leading whitespace of a sequence removed.
pub open spec fn strip_ws(s: Seq<char>) -> Seq<char>
    decreases s.len(),
{
    if s.len() > 0 && is_ws(s[0]) {
        strip_ws(s.skip(1))
    } else {
        s
    }
}

/// Whether a sequence is whitespace only.
pub open spec fn all_ws(s: Seq<char>) -> bool
    decreases s.len(),
{
    if s.len() == 0 {
        true
    } else {
        is_ws(s[0]) && all_ws(s.skip(1))
    }
}

/// The marker word that anchors include insertion.
pub open spec fn marker_word() -> Seq<char> {
    "paperx:sections"@
}

/// A marker line: a comment sign, then the marker word alone on the line,
/// whitespace around it allowed.
pub open spec fn is_marker_line(l: Seq<char>) -> bool {
    &&& l.len() > 0
    &&& l[0] == '%'
    &&& {
        let t = strip_ws(l.skip(1));
        &&& t.len() >= marker_word().len()
        &&& t.take(marker_word().len() as int) == marker_word()
        &&& all_ws(t.skip(marker_word().len() as int))
    }
}

/// The terminal closing directive's fixed head.
pub open spec fn end_word() -> Seq<char> {
    "\\end{document}"@
}

/// A terminal closing line: one that starts with the closing directive.
pub open spec fn is_end_line(l: Seq<char>) -> bool {
    l.len() >= end_word().len() && l.take(end_word().len() as int) == end_word()
}

proof fn lemma_strip_ws_skip(s: Seq<char>, j: int)
    requires
        0 <= j <= s.len(),
        forall|k: int| 0 <= k < j ==> is_ws(s[k]),
        j < s.len() ==> !is_ws(s[j]),
    ensures
        strip_ws(s) == s.skip(j),
    decreases j,
{
    if j == 0 {
        assert(s.skip(0) =~= s);
    } else {
        lemma_strip_ws_skip(s.skip(1), j - 1);
        assert(s.skip(1).skip(j - 1) =~= s.skip(j));
    }
}

proof fn lemma_all_ws_iff(s: Seq<char>)
    ensures
        all_ws(s) <==> (forall|k: int| 0 <= k < s.len() ==> is_ws(s[k])),
    decreases s.len(),
{
    if s.len() > 0 {
        lemma_all_ws_iff(s.skip(1));
        assert(forall|k: int| 0 <= k < s.skip(1).len() ==> s.skip(1)[k] == s[k + 1]);
        if is_ws(s[0]) && (forall|k: int| 0 <= k < s.skip(1).len() ==> is_ws(s.skip(1)[k])) {
            assert forall|k: int| 0 <= k < s.len() implies is_ws(s[k]) by {
                if k > 0 {
                    assert(is_ws(s.skip(1)[k - 1]));
                }
            }
        }
    }
}

/// Executable whitespace check.
fn ws_char(c: char) -> (r: bool)
    ensures
        r == is_ws(c),
{
    c == ' ' || c == '\t' || c == '\r'
}

/// Executable check for a marker line.
pub fn line_is_marker(l: &str) -> (r: bool)
    ensures
        r == is_marker_line(l@),
{
    let n = l.unicode_len();
    if n == 0 || l.get_char(0) != '%' {
        return false;
    }
    let mut i: usize = 1;
    while i < n && ws_char(l.get_char(i))
        invariant
            1 <= i <= n,
            n == l@.len(),
            forall|k: int| 1 <= k < i ==> is_ws(l@[k]),
        decreases n - i,
    {
        i = i + 1;
    }
    proof {
        lemma_strip_ws_skip(l@.skip(1), i - 1);
        assert(l@.skip(1).skip(i - 1) =~= l@.skip(i as int));
        assert(strip_ws(l@.skip(1)) == l@.skip(i as int));
    }
    let w = "paperx:sections";
    let wn = w.unicode_len();
    let ghost t = strip_ws(l@.skip(1));
    if n - i < wn {
        return false;
    }
    let mut k: usize = 0;
    while k < wn
        invariant
            k <= wn,
            n == l@.len(),
            wn == marker_word().len(),
            i + wn <= n,
            1 <= i <= n,
            w@ == marker_word(),
            t == l@.skip(i as int),
            t == strip_ws(l@.skip(1)),
            l@[0] == '%',
            forall|j: int| 0 <= j < k ==> l@[i + j] == marker_word()[j],
        decreases wn - k,
    {
        if l.get_char(i + k) != w.get_char(k) {
            proof {
                assert(t.take(wn as int)[k as int] != marker_word()[k as int]);
            }
            return false;
        }
        k = k + 1;
    }
    proof {
        assert(t.take(wn as int) =~= marker_word());
    }
    let mut m: usize = i + wn;
    while m < n
        invariant
            i + wn <= m <= n,
            n == l@.len(),
            wn == marker_word().len(),
            t == l@.skip(i as int),
            t == strip_ws(l@.skip(1)),
            t.take(wn as int) == marker_word(),
            l@[0] == '%',
            forall|k2: int| i + wn <= k2 < m ==> is_ws(l@[k2]),
        decreases n - m,
    {
        if !ws_char(l.get_char(m)) {
            proof {
                lemma_all_ws_iff(t.skip(wn as int));
                assert(t.skip(wn as int)[m - i - wn] == l@[m as int]);
            }
            return false;
        }
        m = m + 1;
    }
    proof {
        lemma_all_ws_iff(t.skip(wn as int));
        assert forall|k2: int| 0 <= k2 < t.skip(wn as int).len() implies is_ws(
            t.skip(wn as int)[k2],
        ) by {
            assert(t.skip(wn as int)[k2] == l@[i + wn + k2]);
        }
    }
    true
}

/// Executable check for a terminal closing line.
pub fn line_is_end(l: &str) -> (r: bool)
    ensures
        r == is_end_line(l@),
{
    let n = l.unicode_len();
    let w = "\\end{document}";
    let wn = w.unicode_len();
    if n < wn {
        return false;
    }
    let mut k: usize = 0;
    while k < wn
        invariant
            k <= wn <= n,
            n == l@.len(),
            wn == end_word().len(),
            w@ == end_word(),
            forall|j: int| 0 <= j < k ==> l@[j] == end_word()[j],
        decreases wn - k,
    {
        if l.get_char(k) != w.get_char(k) {
            proof {
                assert(l@.take(wn as int)[k as int] != end_word()[k as int]);
            }
            return false;
        }
        k = k + 1;
    }
    proof {
        assert(l@.take(wn as int) =~= end_word());
    }
    true
}

// ---------------------------------------------------------------------
// Splitting a document into lines and joining it back.
// ---------------------------------------------------------------------

/// The lines of a text, split at every newline: a text without newlines is
/// one line, and each newline ends the line before it.
pub open spec fn spec_lines(s: Seq<char>) -> Seq<Seq<char>>
    decreases s.len(),
{
    if s.len() == 0 {
        seq![Seq::<char>::empty()]
    } else if s[0] == '\n' {
        seq![Seq::<char>::empty()] + spec_lines(s.skip(1))
    } else {
        let rest = spec_lines(s.skip(1));
        seq![seq![s[0]] + rest[0]] + rest.skip(1)
    }
}

/// Lines joined back into one text with a newline between each pair.
pub open spec fn spec_join(ls: Seq<Seq<char>>) -> Seq<char>
    decreases ls.len(),
{
    if ls.len() == 0 {
        Seq::empty()
    } else if ls.len() == 1 {
        ls[0]
    } else {
        ls[0] + seq!['\n'] + spec_join(ls.skip(1))
    }
}

pub proof fn lemma_lines_nonempty(s: Seq<char>)
    ensures
        spec_lines(s).len() >= 1,
    decreases s.len(),
{
    if s.len() > 0 {
        lemma_lines_nonempty(s.skip(1));
    }
}

/// Law: joining the split lines gives the text back unchanged.
pub proof fn lemma_join_lines(s: Seq<char>)
    ensures
        spec_join(spec_lines(s)) == s,
    decreases s.len(),
{
    if s.len() == 0 {
    } else if s[0] == '\n' {
        lemma_join_lines(s.skip(1));
        lemma_lines_nonempty(s.skip(1));
        let rest = spec_lines(s.skip(1));
        let ls = seq![Seq::<char>::empty()] + rest;
        assert(ls.skip(1) =~= rest);
        assert(ls.len() >= 2);
        assert(ls[0] =~= Seq::<char>::empty());
        assert(spec_join(ls) == ls[0] + seq!['\n'] + spec_join(ls.skip(1)));
        assert(spec_join(ls.skip(1)) == s.skip(1));
        assert(spec_join(ls) =~= seq!['\n'] + s.skip(1));
        assert(seq!['\n'] + s.skip(1) =~= s);
    } else {
        lemma_join_lines(s.skip(1));
        lemma_lines_nonempty(s.skip(1));
        let rest = spec_lines(s.skip(1));
        let ls = seq![seq![s[0]] + rest[0]] + rest.skip(1);
        if rest.len() == 1 {
            assert(spec_join(rest) == rest[0]);
            assert(ls.len() == 1);
            assert(spec_join(ls) == ls[0]);
            assert(spec_join(ls) =~= seq![s[0]] + spec_join(rest));
            assert(seq![s[0]] + s.skip(1) =~= s);
        } else {
            assert(ls.skip(1) =~= rest.skip(1));
            assert(spec_join(ls) == ls[0] + seq!['\n'] + spec_join(rest.skip(1)));
            assert(spec_join(rest) == rest[0] + seq!['\n'] + spec_join(rest.skip(1)));
            assert(spec_join(ls) =~= seq![s[0]] + spec_join(rest));
            assert(seq![s[0]] + s.skip(1) =~= s);
        }
    }
}

/// No character of the sequence is a newline.
pub open spec fn newline_free(l: Seq<char>) -> bool {
    forall|j: int| 0 <= j < l.len() ==> l[j] != '\n'
}

/// Law: splitting never leaves a newline inside a line.
pub proof fn lemma_lines_newline_free(s: Seq<char>)
    ensures
        forall|k: int| 0 <= k < spec_lines(s).len() ==> newline_free(#[trigger] spec_lines(s)[k]),
    decreases s.len(),
{
    if s.len() == 0 {
        assert(newline_free(spec_lines(s)[0]));
    } else if s[0] == '\n' {
        lemma_lines_newline_free(s.skip(1));
        let rest = spec_lines(s.skip(1));
        assert forall|k: int| 0 <= k < spec_lines(s).len() implies newline_free(
            #[trigger] spec_lines(s)[k],
        ) by {
            if k == 0 {
                assert(spec_lines(s)[0] =~= Seq::<char>::empty());
            } else {
                assert(spec_lines(s)[k] == rest[k - 1]);
            }
        }
    } else {
        lemma_lines_newline_free(s.skip(1));
        let rest = spec_lines(s.skip(1));
        assert forall|k: int| 0 <= k < spec_lines(s).len() implies newline_free(
            #[trigger] spec_lines(s)[k],
        ) by {
            if k == 0 {
                assert(spec_lines(s)[0] == seq![s[0]] + rest[0]);
                assert(newline_free(rest[0]));
                assert forall|j: int| 0 <= j < spec_lines(s)[0].len() implies spec_lines(
                    s,
                )[0][j] != '\n' by {
                    if j > 0 {
                        assert(spec_lines(s)[0][j] == rest[0][j - 1]);
                    }
                }
            } else {
                assert(spec_lines(s)[k] == rest[k]);
            }
        }
    }
}

proof fn lemma_lines_of_single(s: Seq<char>)
    requires
        newline_free(s),
    ensures
        spec_lines(s) == seq![s],
    decreases s.len(),
{
    if s.len() == 0 {
        assert(spec_lines(s) =~~= seq![s]);
    } else {
        assert(newline_free(s.skip(1)));
        lemma_lines_of_single(s.skip(1));
        assert(seq![s[0]] + s.skip(1) =~= s);
        assert(spec_lines(s) =~~= seq![s]);
    }
}

proof fn lemma_lines_concat_newline(a: Seq<char>, b: Seq<char>)
    requires
        newline_free(a),
    ensures
        spec_lines(a + seq!['\n'] + b) == seq![a] + spec_lines(b),
    decreases a.len(),
{
    let s = a + seq!['\n'] + b;
    if a.len() == 0 {
        assert(s[0] == '\n');
        assert(s.skip(1) =~= b);
        assert(spec_lines(s) =~~= seq![a] + spec_lines(b));
    } else {
        assert(newline_free(a.skip(1)));
        lemma_lines_concat_newline(a.skip(1), b);
        assert(s[0] == a[0] && s[0] != '\n');
        assert(s.skip(1) =~= a.skip(1) + seq!['\n'] + b);
        let rest = spec_lines(s.skip(1));
        assert(rest == seq![a.skip(1)] + spec_lines(b));
        lemma_lines_nonempty(b);
        assert(rest[0] == a.skip(1));
        assert(rest.skip(1) =~~= spec_lines(b));
        assert(seq![a[0]] + a.skip(1) =~= a);
        assert(spec_lines(s) =~~= seq![a] + spec_lines(b));
    }
}

/// Law: joining newline-free lines and splitting again gives the same
/// lines back.
pub proof fn lemma_lines_of_join(ls: Seq<Seq<char>>)
    requires
        ls.len() >= 1,
        forall|k: int| 0 <= k < ls.len() ==> newline_free(#[trigger] ls[k]),
    ensures
        spec_lines(spec_join(ls)) == ls,
    decreases ls.len(),
{
    if ls.len() == 1 {
        lemma_lines_of_single(ls[0]);
        assert(seq![ls[0]] =~~= ls);
    } else {
        assert(forall|k: int|
            0 <= k < ls.skip(1).len() ==> newline_free(#[trigger] ls.skip(1)[k]));
        lemma_lines_of_join(ls.skip(1));
        lemma_lines_concat_newline(ls[0], spec_join(ls.skip(1)));
        assert(spec_lines(spec_join(ls)) =~~= ls);
    }
}

/// The first line of a split extended at its front.
spec fn prepend_first(p: Seq<char>, ls: Seq<Seq<char>>) -> Seq<Seq<char>> {
    seq![p + ls[0]] + ls.skip(1)
}

/// Split a document into its lines.
pub fn split_lines(doc: &str) -> (r: Vec<String>)
    ensures
        r.deep_view() == spec_lines(doc@),
{
    let n = doc.unicode_len();
    let mut out: Vec<String> = Vec::new();
    let mut cur: String = String::new();
    let mut i: usize = 0;
    proof {
        assert(doc@.skip(0) =~= doc@);
        assert(out.deep_view() + prepend_first(cur@, spec_lines(doc@.skip(0))) =~~= prepend_first(
            cur@,
            spec_lines(doc@),
        ));
    }
    while i < n
        invariant
            n == doc@.len(),
            i <= n,
            spec_lines(doc@) =~~= out.deep_view() + prepend_first(
                cur@,
                spec_lines(doc@.skip(i as int)),
            ),
        decreases n - i,
    {
        proof {
            assert(doc@.skip(i as int).skip(1) =~= doc@.skip(i + 1));
            lemma_lines_nonempty(doc@.skip(i + 1));
        }
        let ghost prev_out = out.deep_view();
        let ghost prev_cur = cur@;
        let c = doc.get_char(i);
        if c == '\n' {
            out.push(cur);
            cur = String::new();
            proof {
                let rest = spec_lines(doc@.skip(i + 1));
                assert(prev_out + prepend_first(prev_cur, spec_lines(doc@.skip(i as int)))
                    =~~= out.deep_view() + prepend_first(cur@, rest));
            }
        } else {
            push_char(&mut cur, c);
            proof {
                let rest = spec_lines(doc@.skip(i + 1));
                assert(prev_out + prepend_first(prev_cur, spec_lines(doc@.skip(i as int)))
                    =~~= out.deep_view() + prepend_first(cur@, rest));
            }
        }
        i = i + 1;
    }
    proof {
        assert(doc@.skip(n as int) =~= Seq::<char>::empty());
    }
    out.push(cur);
    proof {
        assert(spec_lines(doc@) =~~= out.deep_view());
    }
    out
}

proof fn lemma_join_push(ls: Seq<Seq<char>>, x: Seq<char>)
    requires
        ls.len() >= 1,
    ensures
        spec_join(ls.push(x)) == spec_join(ls) + seq!['\n'] + x,
    decreases ls.len(),
{
    if ls.len() == 1 {
        assert(spec_join(ls.push(x)) == ls.push(x)[0] + seq!['\n'] + spec_join(
            ls.push(x).skip(1),
        ));
        assert(ls.push(x).skip(1) =~= seq![x]);
    } else {
        lemma_join_push(ls.skip(1), x);
        assert(ls.push(x).skip(1) =~= ls.skip(1).push(x));
        assert(spec_join(ls.push(x)) == ls[0] + seq!['\n'] + spec_join(ls.skip(1).push(x)));
        assert(spec_join(ls.push(x)) =~= spec_join(ls) + seq!['\n'] + x);
    }
}

/// Join lines back into one text, a newline between each pair.
pub fn join_lines(lines: &Vec<String>) -> (r: String)
    ensures
        r@ == spec_join(lines.deep_view()),
{
    let n = lines.len();
    if n == 0 {
        return String::new();
    }
    let mut r: String = lines[0].clone();
    let mut i: usize = 1;
    proof {
        assert(lines.deep_view().take(1) =~= seq![lines.deep_view()[0]]);
        assert(r@ == spec_join(lines.deep_view().take(1)));
    }
    while i < n
        invariant
            1 <= i <= n,
            n == lines.len(),
            r@ == spec_join(lines.deep_view().take(i as int)),
        decreases n - i,
    {
        r.append("\n");
        r.append(lines[i].as_str());
        proof {
            reveal_strlit("\n");
            assert("\n"@ =~= seq!['\n']);
            let lv = lines.deep_view();
            lemma_lines_take_nonempty(lv, i as int);
            lemma_join_push(lv.take(i as int), lv[i as int]);
            assert(lv.take(i as int).push(lv[i as int]) =~= lv.take(i + 1));
        }
        i = i + 1;
    }
    proof {
        assert(lines.deep_view().take(n as int) =~= lines.deep_view());
    }
    r
}

proof fn lemma_lines_take_nonempty(lv: Seq<Seq<char>>, i: int)
    requires
        1 <= i <= lv.len(),
    ensures
        lv.take(i).len() >= 1,
{
}

// ---------------------------------------------------------------------
// Splicing an include block at the anchor.
// ---------------------------------------------------------------------

/// Both splice anchors are missing: the document holds neither a marker
/// line nor a terminal closing line. Not auto-repaired.
#[derive(Clone, Copy, PartialEq, Eq, Structural, Debug)]
pub struct MalformedDocumentError;

/// Some line is a marker line.
pub open spec fn has_marker(ls: Seq<Seq<char>>) -> bool {
    exists|k: int| 0 <= k < ls.len() && is_marker_line(ls[k])
}

/// Line `i` is the first marker line.
pub open spec fn first_marker_at(ls: Seq<Seq<char>>, i: int) -> bool {
    &&& 0 <= i < ls.len()
    &&& is_marker_line(ls[i])
    &&& forall|k: int| 0 <= k < i ==> !is_marker_line(ls[k])
}

/// Some line is a terminal closing line.
pub open spec fn has_end(ls: Seq<Seq<char>>) -> bool {
    exists|k: int| 0 <= k < ls.len() && is_end_line(ls[k])
}

/// Line `j` is the first terminal closing line.
pub open spec fn first_end_at(ls: Seq<Seq<char>>, j: int) -> bool {
    &&& 0 <= j < ls.len()
    &&& is_end_line(ls[j])
    &&& forall|k: int| 0 <= k < j ==> !is_end_line(ls[k])
}

/// The lines with a block inserted directly below line `i`.
pub open spec fn spliced_after(ls: Seq<Seq<char>>, i: int, inc: Seq<Seq<char>>) -> Seq<Seq<char>> {
    ls.take(i + 1) + inc + ls.skip(i + 1)
}

/// The lines with a block inserted directly above line `j`.
pub open spec fn spliced_before(ls: Seq<Seq<char>>, j: int, inc: Seq<Seq<char>>) -> Seq<
    Seq<char>,
> {
    ls.take(j) + inc + ls.skip(j)
}

/// Index of the first marker line, if any.
fn find_marker(lines: &Vec<String>) -> (r: Option<usize>)
    ensures
        match r {
            Some(i) => first_marker_at(lines.deep_view(), i as int),
            None => !has_marker(lines.deep_view()),
        },
{
    let n = lines.len();
    let mut i: usize = 0;
    while i < n
        invariant
            i <= n,
            n == lines.len(),
            forall|k: int| 0 <= k < i ==> !is_marker_line(lines.deep_view()[k]),
        decreases n - i,
    {
        let hit = line_is_marker(lines[i].as_str());
        proof {
            assert(lines.deep_view()[i as int] == lines@[i as int]@);
        }
        if hit {
            return Some(i);
        }
        i = i + 1;
    }
    None
}

/// Index of the first terminal closing line, if any.
fn find_end(lines: &Vec<String>) -> (r: Option<usize>)
    ensures
        match r {
            Some(j) => first_end_at(lines.deep_view(), j as int),
            None => !has_end(lines.deep_view()),
        },
{
    let n = lines.len();
    let mut j: usize = 0;
    while j < n
        invariant
            j <= n,
            n == lines.len(),
            forall|k: int| 0 <= k < j ==> !is_end_line(lines.deep_view()[k]),
        decreases n - j,
    {
        let hit = line_is_end(lines[j].as_str());
        proof {
            assert(lines.deep_view()[j as int] == lines@[j as int]@);
        }
        if hit {
            return Some(j);
        }
        j = j + 1;
    }
    None
}

/// Append a range of another line vector's lines.
fn push_range(out: &mut Vec<String>, src: &Vec<String>, from: usize, to: usize)
    requires
        from <= to <= src.len(),
    ensures
        final(out).deep_view() == old(out).deep_view() + src.deep_view().subrange(
            from as int,
            to as int,
        ),
{
    let mut k = from;
    proof {
        assert(out.deep_view() =~~= old(out).deep_view() + src.deep_view().subrange(
            from as int,
            from as int,
        ));
    }
    while k < to
        invariant
            from <= k <= to <= src.len(),
            out.deep_view() =~~= old(out).deep_view() + src.deep_view().subrange(
                from as int,
                k as int,
            ),
        decreases to - k,
    {
        let ghost prev = out.deep_view();
        out.push(src[k].clone());
        proof {
            assert(out.deep_view() =~~= prev.push(src.deep_view()[k as int]));
            assert(out.deep_view() =~~= old(out).deep_view() + src.deep_view().subrange(
                from as int,
                k + 1,
            ));
        }
        k = k + 1;
    }
}

/// Insert an include block into the document's lines: directly below the
/// first marker line when one exists, else directly above the first
/// terminal closing line; fail when neither anchor is present.
pub fn splice_lines(lines: &Vec<String>, inc: &Vec<String>) -> (r: Result<
    Vec<String>,
    MalformedDocumentError,
>)
    ensures
        match r {
            Ok(out) => {
                &&& has_marker(lines.deep_view()) || has_end(lines.deep_view())
                &&& has_marker(lines.deep_view()) ==> exists|i: int|
                    first_marker_at(lines.deep_view(), i) && out.deep_view() == spliced_after(
                        lines.deep_view(),
                        i,
                        inc.deep_view(),
                    )
                &&& !has_marker(lines.deep_view()) && has_end(lines.deep_view()) ==> exists|
                    j: int,
                |
                    first_end_at(lines.deep_view(), j) && out.deep_view() == spliced_before(
                        lines.deep_view(),
                        j,
                        inc.deep_view(),
                    )
            },
            Err(e) => !has_marker(lines.deep_view()) && !has_end(lines.deep_view()),
        },
{
    match find_marker(lines) {
        Some(i) => {
            let n = lines.len();
            proof {
                assert(lines.deep_view().len() == lines@.len());
            }
            let mut out: Vec<String> = Vec::new();
            push_range(&mut out, lines, 0, i + 1);
            push_range(&mut out, inc, 0, inc.len());
            push_range(&mut out, lines, i + 1, n);
            proof {
                let lv = lines.deep_view();
                assert(out.deep_view() =~~= spliced_after(lv, i as int, inc.deep_view()));
                assert(first_marker_at(lv, i as int));
            }
            Ok(out)
        },
        None => match find_end(lines) {
            Some(j) => {
                proof {
                    assert(lines.deep_view().len() == lines@.len());
                }
                let mut out: Vec<String> = Vec::new();
                push_range(&mut out, lines, 0, j);
                push_range(&mut out, inc, 0, inc.len());
                push_range(&mut out, lines, j, lines.len());
                proof {
                    let lv = lines.deep_view();
                    assert(out.deep_view() =~~= spliced_before(lv, j as int, inc.deep_view()));
                    assert(first_end_at(lv, j as int));
                }
                Ok(out)
            },
            None => Err(MalformedDocumentError),
        },
    }
}

// ---------------------------------------------------------------------
// Section insertion: the public operation.
// ---------------------------------------------------------------------

/// The fixed comment line written above every inserted include directive.
pub open spec fn include_comment() -> Seq<char> {
    "% paperx:include"@
}

/// The include directive referencing a new fragment by its relative path.
pub open spec fn include_directive(name: Seq<char>) -> Seq<char> {
    "\\input{sections/"@ + name + ".tex}"@
}

/// The two lines inserted for one new section.
pub open spec fn include_block(name: Seq<char>) -> Seq<Seq<char>> {
    seq![include_comment(), include_directive(name)]
}

/// Where a new section's own content file lives, relative to the project
/// root.
pub open spec fn fragment_path(name: Seq<char>) -> Seq<char> {
    "tex/sections/"@ + name + ".tex"@
}

/// The initial content of a new section's fragment file.
pub open spec fn fragment_text(name: Seq<char>) -> Seq<char> {
    "% Section: "@ + name + "\n\\section{"@ + spec_titleize(name) + "}\nWrite here.\n"@
}

/// The two include lines for a section name.
pub fn build_include_block(name: &str) -> (r: Vec<String>)
    ensures
        r.deep_view() == include_block(name@),
{
    let mut r: Vec<String> = Vec::new();
    r.push("% paperx:include".to_owned());
    r.push("\\input{sections/".to_owned().concat(name).concat(".tex}"));
    proof {
        assert(r.deep_view() =~~= include_block(name@));
    }
    r
}

/// The relative path of a section's fragment file.
pub fn build_fragment_path(name: &str) -> (r: String)
    ensures
        r@ == fragment_path(name@),
{
    "tex/sections/".to_owned().concat(name).concat(".tex")
}

/// The initial content of a section's fragment file.
pub fn build_fragment_text(name: &str) -> (r: String)
    ensures
        r@ == fragment_text(name@),
{
    let title = titleize(name);
    "% Section: ".to_owned().concat(name).concat("\n\\section{").concat(title.as_str()).concat(
        "}\nWrite here.\n",
    )
}

/// What one section insertion produces: the new fragment's path and
/// content, and the rewritten root document.
pub struct SectionInsertion {
    pub fragment_path: String,
    pub fragment_text: String,
    pub new_doc: String,
}

/// Why a section insertion failed.
#[derive(Clone, Copy, PartialEq, Eq, Structural, Debug)]
pub enum SectionError {
    /// The derived fragment path already exists: never overwritten.
    AlreadyExists,
    /// The document holds neither a marker line nor a terminal closing
    /// line.
    MalformedDocument,
}

/// The rewritten document after inserting the include block for `name`:
/// directly below the first marker line when the document has one, else
/// directly above the first terminal closing line.
pub open spec fn spliced_doc_ok(doc: Seq<char>, name: Seq<char>, out: Seq<char>) -> bool {
    let ls = spec_lines(doc);
    &&& (has_marker(ls) ==> exists|i: int|
        first_marker_at(ls, i) && out == spec_join(spliced_after(ls, i, include_block(name))))
    &&& (!has_marker(ls) && has_end(ls) ==> exists|j: int|
        first_end_at(ls, j) && out == spec_join(spliced_before(ls, j, include_block(name))))
    &&& (has_marker(ls) || has_end(ls))
}

/// Register a new section: derive the fragment's path and initial content
/// and splice its include directive into the root document. Fails without
/// touching anything when the fragment already exists (never overwritten)
/// or when the document lacks both splice anchors.
pub fn add_section(name: &str, doc: &str, fragment_exists: bool) -> (r: Result<
    SectionInsertion,
    SectionError,
>)
    ensures
        match r {
            Ok(ins) => {
                &&& !fragment_exists
                &&& ins.fragment_path@ == fragment_path(name@)
                &&& ins.fragment_text@ == fragment_text(name@)
                &&& spliced_doc_ok(doc@, name@, ins.new_doc@)
            },
            Err(e) => {
                &&& (e == SectionError::AlreadyExists <==> fragment_exists)
                &&& (e == SectionError::MalformedDocument ==> !has_marker(spec_lines(doc@))
                    && !has_end(spec_lines(doc@)))
            },
        },
{
    if fragment_exists {
        return Err(SectionError::AlreadyExists);
    }
    let lines = split_lines(doc);
    let inc = build_include_block(name);
    match splice_lines(&lines, &inc) {
        Ok(out_lines) => {
            let new_doc = join_lines(&out_lines);
            Ok(SectionInsertion {
                fragment_path: build_fragment_path(name),
                fragment_text: build_fragment_text(name),
                new_doc,
            })
        },
        Err(_) => Err(SectionError::MalformedDocument),
    }
}

// ---------------------------------------------------------------------
// Laws of splicing.
// ---------------------------------------------------------------------

/// Law: the include block written for a section is itself neither a marker
/// line nor a terminal closing line, whatever the name — insertion never
/// creates a new anchor.
pub proof fn lemma_include_block_no_anchor(name: Seq<char>)
    ensures
        forall|k: int| 0 <= k < include_block(name).len() ==> !is_marker_line(
            #[trigger] include_block(name)[k],
        ),
        forall|k: int| 0 <= k < include_block(name).len() ==> !is_end_line(
            #[trigger] include_block(name)[k],
        ),
{
    reveal_strlit("% paperx:include");
    reveal_strlit("paperx:sections");
    reveal_strlit("\\input{sections/");
    reveal_strlit("\\end{document}");
    let c = include_comment();
    let d = include_directive(name);
    assert(marker_word().len() == 15);
    assert(end_word().len() == 14);
    lemma_strip_ws_skip(c.skip(1), 1);
    assert(c.skip(1).skip(1) =~= c.skip(2));
    assert(strip_ws(c.skip(1)).len() == 14);
    assert(!is_marker_line(c));
    assert(c.len() == 16);
    assert(c.take(14)[0] == '%');
    assert(!is_end_line(c));
    assert(d[0] == "\\input{sections/"@[0]);
    assert(d[0] == '\\' && d[1] == 'i');
    assert(!is_marker_line(d));
    if d.len() >= 14 {
        assert(d.take(14)[1] == 'i');
        assert(end_word()[1] == 'e');
    }
    assert(!is_end_line(d));
    assert(include_block(name)[0] == c && include_block(name)[1] == d);
    assert(forall|k: int| 0 <= k < include_block(name).len() ==> #[trigger] include_block(
        name,
    )[k] == c || include_block(name)[k] == d);
}

/// Law: insertion re-anchors at the marker. In lines holding exactly one
/// marker line, splicing one block and then another leaves the marker at
/// its place, still the only one, with the second block directly below it
/// and the first block below that.
pub proof fn lemma_splice_reanchors(
    ls: Seq<Seq<char>>,
    i: int,
    inc1: Seq<Seq<char>>,
    inc2: Seq<Seq<char>>,
)
    requires
        first_marker_at(ls, i),
        forall|k: int| 0 <= k < ls.len() && k != i ==> !is_marker_line(ls[k]),
        forall|k: int| 0 <= k < inc1.len() ==> !is_marker_line(inc1[k]),
        forall|k: int| 0 <= k < inc2.len() ==> !is_marker_line(inc2[k]),
    ensures
        first_marker_at(spliced_after(ls, i, inc1), i),
        forall|k: int|
            0 <= k < spliced_after(ls, i, inc1).len() && k != i ==> !is_marker_line(
                #[trigger] spliced_after(ls, i, inc1)[k],
            ),
        spliced_after(spliced_after(ls, i, inc1), i, inc2) == ls.take(i + 1) + inc2 + inc1
            + ls.skip(i + 1),
{
    let out1 = spliced_after(ls, i, inc1);
    assert(out1.len() == ls.len() + inc1.len());
    assert forall|k: int| 0 <= k < out1.len() && k != i implies !is_marker_line(
        #[trigger] out1[k],
    ) by {
        if k <= i {
            assert(out1[k] == ls[k]);
        } else if k < i + 1 + inc1.len() {
            assert(out1[k] == inc1[k - i - 1]);
        } else {
            assert(out1[k] == ls[k - inc1.len()]);
        }
    }
    assert(out1[i] == ls[i]);
    assert(out1.take(i + 1) =~~= ls.take(i + 1));
    assert(out1.skip(i + 1) =~~= inc1 + ls.skip(i + 1));
    assert(spliced_after(out1, i, inc2) =~~= ls.take(i + 1) + inc2 + inc1 + ls.skip(i + 1));
}

/// Law: without a marker, insertion lands directly above the first
/// terminal closing line; when the lines hold exactly one such line, the
/// result still holds exactly one, directly below the inserted block.
pub proof fn lemma_splice_keeps_single_end(ls: Seq<Seq<char>>, j: int, inc: Seq<Seq<char>>)
    requires
        first_end_at(ls, j),
        forall|k: int| 0 <= k < ls.len() && k != j ==> !is_end_line(ls[k]),
        forall|k: int| 0 <= k < inc.len() ==> !is_end_line(inc[k]),
    ensures
        spliced_before(ls, j, inc)[j + inc.len()] == ls[j],
        is_end_line(spliced_before(ls, j, inc)[j + inc.len()]),
        forall|k: int|
            0 <= k < spliced_before(ls, j, inc).len() && k != j + inc.len() ==> !is_end_line(
                #[trigger] spliced_before(ls, j, inc)[k],
            ),
{
    let out = spliced_before(ls, j, inc);
    assert(out.len() == ls.len() + inc.len());
    assert(out[j + inc.len()] == ls[j]);
    assert forall|k: int| 0 <= k < out.len() && k != j + inc.len() implies !is_end_line(
        #[trigger] out[k],
    ) by {
        if k < j {
            assert(out[k] == ls[k]);
        } else if k < j + inc.len() {
            assert(out[k] == inc[k - j]);
        } else {
            assert(out[k] == ls[k - inc.len()]);
        }
    }
}

/// Law: adding two sections in turn stacks both include blocks directly
/// below the one marker line, the more recent block on top, and the marker
/// stays in place, still the only one — whatever the two names are.
pub proof fn lemma_two_sections_stack_below_marker(
    ls: Seq<Seq<char>>,
    i: int,
    name1: Seq<char>,
    name2: Seq<char>,
)
    requires
        first_marker_at(ls, i),
        forall|k: int| 0 <= k < ls.len() && k != i ==> !is_marker_line(ls[k]),
    ensures
        first_marker_at(spliced_after(ls, i, include_block(name1)), i),
        forall|k: int|
            0 <= k < spliced_after(ls, i, include_block(name1)).len() && k != i
                ==> !is_marker_line(#[trigger] spliced_after(ls, i, include_block(name1))[k]),
        spliced_after(spliced_after(ls, i, include_block(name1)), i, include_block(name2))
            == ls.take(i + 1) + include_block(name2) + include_block(name1) + ls.skip(i + 1),
{
    lemma_include_block_no_anchor(name1);
    lemma_include_block_no_anchor(name2);
    lemma_splice_reanchors(ls, i, include_block(name1), include_block(name2));
}

/// Law: in a document whose lines hold no marker and exactly one terminal
/// closing line, adding a section puts the include block directly above
/// that line, and the result still holds exactly one terminal closing
/// line — whatever the name is.
pub proof fn lemma_section_lands_above_single_end(ls: Seq<Seq<char>>, j: int, name: Seq<char>)
    requires
        first_end_at(ls, j),
        forall|k: int| 0 <= k < ls.len() && k != j ==> !is_end_line(ls[k]),
    ensures
        spliced_before(ls, j, include_block(name))[j + include_block(name).len()] == ls[j],
        is_end_line(spliced_before(ls, j, include_block(name))[j + include_block(name).len()]),
        forall|k: int|
            0 <= k < spliced_before(ls, j, include_block(name)).len() && k != j + include_block(
                name,
            ).len() ==> !is_end_line(#[trigger] spliced_before(ls, j, include_block(name))[k]),
{
    lemma_include_block_no_anchor(name);
    lemma_splice_keeps_single_end(ls, j, include_block(name));
}

/// Law: when the section name holds no newline, neither does either line
/// of its include block.
pub proof fn lemma_include_block_newline_free(name: Seq<char>)
    requires
        newline_free(name),
    ensures
        forall|k: int| 0 <= k < include_block(name).len() ==> newline_free(
            #[trigger] include_block(name)[k],
        ),
{
    reveal_strlit("% paperx:include");
    reveal_strlit("\\input{sections/");
    reveal_strlit(".tex}");
    let c = include_comment();
    let d = include_directive(name);
    let p = "\\input{sections/"@;
    let q = ".tex}"@;
    assert(c.len() == 16 && p.len() == 16 && q.len() == 5);
    assert forall|j: int| 0 <= j < c.len() implies c[j] != '\n' by {}
    assert(newline_free(c));
    assert forall|j: int| 0 <= j < d.len() implies d[j] != '\n' by {
        if j < 16 {
            assert(d[j] == p[j]);
        } else if j < 16 + name.len() {
            assert(d[j] == name[j - 16]);
        } else {
            assert(d[j] == q[j - 16 - name.len()]);
        }
    }
    assert(newline_free(d));
    assert forall|k: int| 0 <= k < include_block(name).len() implies newline_free(
        #[trigger] include_block(name)[k],
    ) by {
        assert(include_block(name)[k] == c || include_block(name)[k] == d);
    }
}

/// Law: at document level, adding two sections in turn stacks both include
/// blocks directly below the single marker line, the more recent on top,
/// and the marker stays in place, still the only one. Holds for names
/// without a newline.
pub proof fn lemma_two_sections_document(
    doc: Seq<char>,
    i: int,
    name1: Seq<char>,
    name2: Seq<char>,
)
    requires
        first_marker_at(spec_lines(doc), i),
        forall|k: int|
            0 <= k < spec_lines(doc).len() && k != i ==> !is_marker_line(
                #[trigger] spec_lines(doc)[k],
            ),
        newline_free(name1),
        newline_free(name2),
    ensures
        ({
            let ls = spec_lines(doc);
            let once = spec_join(spliced_after(ls, i, include_block(name1)));
            &&& spec_lines(once) == spliced_after(ls, i, include_block(name1))
            &&& first_marker_at(spec_lines(once), i)
            &&& forall|k: int|
                0 <= k < spec_lines(once).len() && k != i ==> !is_marker_line(
                    #[trigger] spec_lines(once)[k],
                )
            &&& spec_join(spliced_after(spec_lines(once), i, include_block(name2)))
                == spec_join(
                ls.take(i + 1) + include_block(name2) + include_block(name1) + ls.skip(i + 1),
            )
        }),
{
    let ls = spec_lines(doc);
    lemma_lines_newline_free(doc);
    lemma_include_block_newline_free(name1);
    lemma_include_block_newline_free(name2);
    lemma_two_sections_stack_below_marker(ls, i, name1, name2);
    let spl = spliced_after(ls, i, include_block(name1));
    assert forall|k: int| 0 <= k < spl.len() implies newline_free(#[trigger] spl[k]) by {
        if k <= i {
            assert(spl[k] == ls[k]);
        } else if k < i + 1 + include_block(name1).len() {
            assert(spl[k] == include_block(name1)[k - i - 1]);
        } else {
            assert(spl[k] == ls[k - include_block(name1).len()]);
        }
    }
    lemma_lines_of_join(spl);
}

/// Law: at document level, adding a section to a document whose lines hold
/// no marker and exactly one terminal closing line puts the include block
/// directly above that line, and exactly one terminal closing line
/// remains. Holds for names without a newline.
pub proof fn lemma_section_document_before_end(doc: Seq<char>, j: int, name: Seq<char>)
    requires
        first_end_at(spec_lines(doc), j),
        forall|k: int|
            0 <= k < spec_lines(doc).len() && k != j ==> !is_end_line(
                #[trigger] spec_lines(doc)[k],
            ),
        newline_free(name),
    ensures
        ({
            let ls = spec_lines(doc);
            let once = spec_join(spliced_before(ls, j, include_block(name)));
            &&& spec_lines(once) == spliced_before(ls, j, include_block(name))
            &&& spec_lines(once)[j + include_block(name).len()] == ls[j]
            &&& is_end_line(spec_lines(once)[j + include_block(name).len()])
            &&& forall|k: int|
                0 <= k < spec_lines(once).len() && k != j + include_block(name).len()
                    ==> !is_end_line(#[trigger] spec_lines(once)[k])
        }),
{
    let ls = spec_lines(doc);
    lemma_lines_newline_free(doc);
    lemma_include_block_newline_free(name);
    lemma_section_lands_above_single_end(ls, j, name);
    let spl = spliced_before(ls, j, include_block(name));
    assert forall|k: int| 0 <= k < spl.len() implies newline_free(#[trigger] spl[k]) by {
        if k < j {
            assert(spl[k] == ls[k]);
        } else if k < j + include_block(name).len() {
            assert(spl[k] == include_block(name)[k - j]);
        } else {
            assert(spl[k] == ls[k - include_block(name).len()]);
        }
    }
    lemma_lines_of_join(spl);
}

} // verus!
