//! Extraction of citation keys from auxiliary files and bibliography logs.
//!
//! Two marker grammars are recognised in auxiliary text, `\citation{...}`
//! and `\abx@aux@cite{...}`; a marker's payload runs to the first closing
//! brace on the same line and may carry several keys separated by commas.
//! Bibliography logs are scanned for missing-entry warning lines in two
//! dialects, each quoting a single key with straight double or single
//! quotes.  Extracted keys are returned deduplicated and sorted; keys are
//! taken verbatim, so whitespace around a comma stays part of the key.

use vstd::prelude::*;

use crate::keyset::has_key;
use crate::keyset::insert_key;
use crate::keyset::strictly_sorted_keys;

verus! {

/// The pattern `pat` occurs in `t` starting at position `m`.
pub open spec fn matches_at(t: Seq<char>, m: int, pat: Seq<char>) -> bool {
    0 <= m && m + pat.len() <= t.len() && t.subrange(m, m + pat.len()) == pat
}

/// Positions `i` to `j` hold a run of characters free of `delim` and of
/// line breaks, closed by `delim` at `j` itself.
pub open spec fn closed_span(t: Seq<char>, i: int, j: int, delim: char) -> bool {
    i <= j < t.len() && t[j] == delim && (forall|p: int| i <= p < j ==> t[p] != delim && t[p]
        != '\n')
}

proof fn lemma_closed_span_unique(t: Seq<char>, i: int, j1: int, j2: int, delim: char)
    requires
        closed_span(t, i, j1, delim),
        closed_span(t, i, j2, delim),
    ensures
        j1 == j2,
{
    if j1 < j2 {
        assert(t[j1] != delim);
    }
    if j2 < j1 {
        assert(t[j2] != delim);
    }
}

/// Decides whether `pat` occurs in `text` at position `m`.
fn matches_pat(text: &str, n: usize, m: usize, pat: &Vec<char>) -> (r: bool)
    requires
        n == text@.len(),
        m <= n,
    ensures
        r == matches_at(text@, m as int, pat@),
{
    let pl = pat.len();
    if n - m < pl {
        return false;
    }
    let mut q: usize = 0;
    while q < pl
        invariant
            q <= pl,
            pl == pat@.len(),
            m + pl <= n,
            n == text@.len(),
            forall|p: int| 0 <= p < q ==> text@[m + p] == pat@[p],
        decreases pl - q,
    {
        if text.get_char(m + q) != pat[q] {
            proof {
                if matches_at(text@, m as int, pat@) {
                    assert(text@.subrange(m as int, m + pat@.len())[q as int] == pat@[q as int]);
                }
            }
            return false;
        }
        q += 1;
    }
    proof {
        assert(text@.subrange(m as int, m + pat@.len()) =~= pat@);
    }
    true
}

/// Scans forward from `i` for `delim`, stopping at a line break or at the
/// end of the text; reports the position of the first hit, if any.
fn find_delim(text: &str, n: usize, i: usize, delim: char) -> (r: Option<usize>)
    requires
        n == text@.len(),
        i <= n,
        delim != '\n',
    ensures
        match r {
            Some(j) => i <= j < n && closed_span(text@, i as int, j as int, delim),
            None => forall|j: int| !closed_span(text@, i as int, j, delim),
        },
{
    let mut j = i;
    while j < n
        invariant
            i <= j <= n,
            n == text@.len(),
            forall|p: int| i <= p < j ==> text@[p] != delim && text@[p] != '\n',
        decreases n - j,
    {
        let c = text.get_char(j);
        if c == delim {
            return Some(j);
        }
        if c == '\n' {
            proof {
                assert forall|j2: int| !closed_span(text@, i as int, j2, delim) by {
                    if closed_span(text@, i as int, j2, delim) {
                        if j2 <= j {
                            assert(text@[j2] != delim);
                        } else {
                            assert(text@[j as int] != '\n');
                        }
                    }
                }
            }
            return None;
        }
        j += 1;
    }
    proof {
        assert forall|j2: int| !closed_span(text@, i as int, j2, delim) by {
            if closed_span(text@, i as int, j2, delim) {
                assert(text@[j2] != delim);
            }
        }
    }
    None
}

// ---- auxiliary-file citation markers ----

/// The single-key-per-marker citation form, `\citation{`.
pub open spec fn cite_marker() -> Seq<char> {
    seq!['\\', 'c', 'i', 't', 'a', 't', 'i', 'o', 'n', '{']
}

/// The list-valued citation form, `\abx@aux@cite{`.
pub open spec fn abx_marker() -> Seq<char> {
    seq!['\\', 'a', 'b', 'x', '@', 'a', 'u', 'x', '@', 'c', 'i', 't', 'e', '{']
}

/// A citation marker of either dialect opens at position `m`.
pub open spec fn aux_marker_at(t: Seq<char>, m: int) -> bool {
    matches_at(t, m, cite_marker()) || matches_at(t, m, abx_marker())
}

/// Where the payload of the marker at `m` begins.  The two marker texts
/// differ in their second character, so only one can open at `m`.
pub open spec fn aux_payload_start(t: Seq<char>, m: int) -> int {
    if matches_at(t, m, cite_marker()) {
        m + cite_marker().len()
    } else {
        m + abx_marker().len()
    }
}

/// A non-empty comma-free stretch `[a, b)` of the payload `[i, j)`, bounded
/// on each side by a comma or by the payload's own ends.
pub open spec fn comma_segment_at(t: Seq<char>, i: int, j: int, a: int, b: int) -> bool {
    i <= a < b <= j && (a == i || t[a - 1] == ',') && (b == j || t[b] == ',') && (forall|p: int|
        a <= p < b ==> t[p] != ',')
}

/// Positions `[a, b)` hold one key of the marker opening at `m`: the
/// marker's payload runs to the first closing brace on the same line, and
/// the key is one comma-bounded piece of it.
pub open spec fn aux_key_span(t: Seq<char>, m: int, a: int, b: int) -> bool {
    aux_marker_at(t, m) && exists|j: int|
        closed_span(t, aux_payload_start(t, m), j, '}') && comma_segment_at(
            t,
            aux_payload_start(t, m),
            j,
            a,
            b,
        )
}

/// `x` is one of the keys contributed by the marker opening at `m`.
pub open spec fn aux_key_from(t: Seq<char>, m: int, x: Seq<char>) -> bool {
    exists|a: int, b: int| aux_key_span(t, m, a, b) && x == t.subrange(a, b)
}

/// `x` is a citation key named somewhere in the auxiliary text `t`.
pub open spec fn is_aux_key(t: Seq<char>, x: Seq<char>) -> bool {
    exists|m: int| aux_key_from(t, m, x)
}

/// `x` is contributed by a marker opening before position `bound`.
spec fn is_aux_key_before(t: Seq<char>, bound: int, x: Seq<char>) -> bool {
    exists|m: int| m < bound && aux_key_from(t, m, x)
}

/// `x` is a payload segment of `[i, j)` that ends before position `c`.
spec fn seg_key_below(t: Seq<char>, i: int, j: int, c: int, x: Seq<char>) -> bool {
    exists|a2: int, b2: int|
        comma_segment_at(t, i, j, a2, b2) && b2 < c && x == t.subrange(a2, b2)
}

/// A segment's end determines its start.
proof fn lemma_segment_start_unique(t: Seq<char>, i: int, j: int, a1: int, a2: int, b: int)
    requires
        comma_segment_at(t, i, j, a1, b),
        comma_segment_at(t, i, j, a2, b),
    ensures
        a1 == a2,
{
    if a1 < a2 {
        assert(t[a2 - 1] == ',');
    }
    if a2 < a1 {
        assert(t[a1 - 1] == ',');
    }
}

/// A marker that never closes, or no marker at all, adds no keys.
proof fn lemma_aux_step_none(t: Seq<char>, m: int)
    requires
        !aux_marker_at(t, m) || (forall|j: int|
            !closed_span(t, aux_payload_start(t, m), j, '}')),
    ensures
        forall|x: Seq<char>|
            #[trigger] is_aux_key_before(t, m + 1, x) <==> is_aux_key_before(t, m, x),
{
    assert forall|x: Seq<char>|
        #[trigger] is_aux_key_before(t, m + 1, x) <==> is_aux_key_before(t, m, x) by {
        if is_aux_key_before(t, m + 1, x) {
            let m2 = choose|m2: int| m2 < m + 1 && aux_key_from(t, m2, x);
            if m2 == m {
                let (a2, b2) = choose|a2: int, b2: int|
                    aux_key_span(t, m, a2, b2) && x == t.subrange(a2, b2);
                let j = choose|j: int|
                    closed_span(t, aux_payload_start(t, m), j, '}') && comma_segment_at(
                        t,
                        aux_payload_start(t, m),
                        j,
                        a2,
                        b2,
                    );
                assert(false);
            }
            assert(m2 < m && aux_key_from(t, m2, x));
        }
        if is_aux_key_before(t, m, x) {
            let m2 = choose|m2: int| m2 < m && aux_key_from(t, m2, x);
            assert(m2 < m + 1 && aux_key_from(t, m2, x));
        }
    }
}

/// A marker whose payload closes at `j` adds exactly the payload's comma
/// segments.
proof fn lemma_aux_step_done(t: Seq<char>, m: int, j: int)
    requires
        aux_marker_at(t, m),
        closed_span(t, aux_payload_start(t, m), j, '}'),
    ensures
        forall|x: Seq<char>|
            #[trigger] is_aux_key_before(t, m + 1, x) <==> is_aux_key_before(t, m, x)
                || seg_key_below(t, aux_payload_start(t, m), j, j + 1, x),
{
    let i = aux_payload_start(t, m);
    assert forall|x: Seq<char>|
        #[trigger] is_aux_key_before(t, m + 1, x) <==> is_aux_key_before(t, m, x)
            || seg_key_below(t, i, j, j + 1, x) by {
        if is_aux_key_before(t, m + 1, x) {
            let m2 = choose|m2: int| m2 < m + 1 && aux_key_from(t, m2, x);
            if m2 == m {
                let (a2, b2) = choose|a2: int, b2: int|
                    aux_key_span(t, m, a2, b2) && x == t.subrange(a2, b2);
                let j2 = choose|j2: int|
                    closed_span(t, i, j2, '}') && comma_segment_at(t, i, j2, a2, b2);
                lemma_closed_span_unique(t, i, j2, j, '}');
                assert(comma_segment_at(t, i, j, a2, b2) && b2 < j + 1 && x == t.subrange(a2, b2));
            } else {
                assert(m2 < m && aux_key_from(t, m2, x));
            }
        }
        if is_aux_key_before(t, m, x) {
            let m2 = choose|m2: int| m2 < m && aux_key_from(t, m2, x);
            assert(m2 < m + 1 && aux_key_from(t, m2, x));
        }
        if seg_key_below(t, i, j, j + 1, x) {
            let (a2, b2) = choose|a2: int, b2: int|
                comma_segment_at(t, i, j, a2, b2) && b2 < j + 1 && x == t.subrange(a2, b2);
            assert(closed_span(t, i, j, '}') && comma_segment_at(t, i, j, a2, b2));
            assert(aux_key_span(t, m, a2, b2));
            assert(aux_key_from(t, m, x));
            assert(m < m + 1 && aux_key_from(t, m, x));
        }
    }
}

/// Scanning past a comma at `c` completes the segment `[a, c)`, if it is
/// non-empty, and nothing else.
proof fn lemma_seg_step_comma(t: Seq<char>, i: int, j: int, a: int, c: int)
    requires
        i <= a <= c < j,
        t[c] == ',',
        a == i || t[a - 1] == ',',
        forall|p: int| a <= p < c ==> t[p] != ',',
    ensures
        forall|x: Seq<char>|
            #[trigger] seg_key_below(t, i, j, c + 1, x) <==> seg_key_below(t, i, j, c, x) || (a < c
                && x == t.subrange(a, c)),
{
    assert forall|x: Seq<char>|
        #[trigger] seg_key_below(t, i, j, c + 1, x) <==> seg_key_below(t, i, j, c, x) || (a < c
            && x == t.subrange(a, c)) by {
        if seg_key_below(t, i, j, c + 1, x) {
            let (a2, b2) = choose|a2: int, b2: int|
                comma_segment_at(t, i, j, a2, b2) && b2 < c + 1 && x == t.subrange(a2, b2);
            if b2 == c {
                if a < c {
                    assert(comma_segment_at(t, i, j, a, c));
                    lemma_segment_start_unique(t, i, j, a2, a, c);
                    assert(x == t.subrange(a, c));
                } else {
                    // a == c: any segment ending at c would start before a
                    // and so cross the comma that bounds a on its left.
                    assert(a2 < c);
                    if a2 < a {
                        assert(a > i);
                        assert(t[a - 1] == ',');
                        assert(a2 <= a - 1 < b2);
                        assert(false);
                    }
                    assert(false);
                }
            } else {
                assert(seg_key_below(t, i, j, c, x));
            }
        }
        if seg_key_below(t, i, j, c, x) {
            let (a2, b2) = choose|a2: int, b2: int|
                comma_segment_at(t, i, j, a2, b2) && b2 < c && x == t.subrange(a2, b2);
            assert(comma_segment_at(t, i, j, a2, b2) && b2 < c + 1 && x == t.subrange(a2, b2));
        }
        if a < c && x == t.subrange(a, c) {
            assert(comma_segment_at(t, i, j, a, c));
            assert(comma_segment_at(t, i, j, a, c) && c < c + 1 && x == t.subrange(a, c));
        }
    }
}

/// Scanning past an ordinary character completes no segment.
proof fn lemma_seg_step_plain(t: Seq<char>, i: int, j: int, c: int)
    requires
        i <= c < j,
        t[c] != ',',
    ensures
        forall|x: Seq<char>|
            #[trigger] seg_key_below(t, i, j, c + 1, x) <==> seg_key_below(t, i, j, c, x),
{
    assert forall|x: Seq<char>|
        #[trigger] seg_key_below(t, i, j, c + 1, x) <==> seg_key_below(t, i, j, c, x) by {
        if seg_key_below(t, i, j, c + 1, x) {
            let (a2, b2) = choose|a2: int, b2: int|
                comma_segment_at(t, i, j, a2, b2) && b2 < c + 1 && x == t.subrange(a2, b2);
            if b2 == c {
                assert(b2 == j || t[b2] == ',');
                assert(false);
            }
            assert(seg_key_below(t, i, j, c, x));
        }
        if seg_key_below(t, i, j, c, x) {
            let (a2, b2) = choose|a2: int, b2: int|
                comma_segment_at(t, i, j, a2, b2) && b2 < c && x == t.subrange(a2, b2);
            assert(comma_segment_at(t, i, j, a2, b2) && b2 < c + 1 && x == t.subrange(a2, b2));
        }
    }
}

/// Reaching the closing brace completes the final segment `[a, j)`, if it
/// is non-empty, and nothing else.
proof fn lemma_seg_step_last(t: Seq<char>, i: int, j: int, a: int)
    requires
        i <= a <= j,
        a == i || t[a - 1] == ',',
        forall|p: int| a <= p < j ==> t[p] != ',',
    ensures
        forall|x: Seq<char>|
            #[trigger] seg_key_below(t, i, j, j + 1, x) <==> seg_key_below(t, i, j, j, x) || (a < j
                && x == t.subrange(a, j)),
{
    assert forall|x: Seq<char>|
        #[trigger] seg_key_below(t, i, j, j + 1, x) <==> seg_key_below(t, i, j, j, x) || (a < j
            && x == t.subrange(a, j)) by {
        if seg_key_below(t, i, j, j + 1, x) {
            let (a2, b2) = choose|a2: int, b2: int|
                comma_segment_at(t, i, j, a2, b2) && b2 < j + 1 && x == t.subrange(a2, b2);
            if b2 == j {
                if a < j {
                    assert(comma_segment_at(t, i, j, a, j));
                    lemma_segment_start_unique(t, i, j, a2, a, j);
                    assert(x == t.subrange(a, j));
                } else {
                    assert(a2 < j);
                    if a2 < a {
                        assert(a > i);
                        assert(t[a - 1] == ',');
                        assert(a2 <= a - 1 < b2);
                        assert(false);
                    }
                    assert(false);
                }
            } else {
                assert(seg_key_below(t, i, j, j, x));
            }
        }
        if seg_key_below(t, i, j, j, x) {
            let (a2, b2) = choose|a2: int, b2: int|
                comma_segment_at(t, i, j, a2, b2) && b2 < j && x == t.subrange(a2, b2);
            assert(comma_segment_at(t, i, j, a2, b2) && b2 < j + 1 && x == t.subrange(a2, b2));
        }
        if a < j && x == t.subrange(a, j) {
            assert(comma_segment_at(t, i, j, a, j));
            assert(comma_segment_at(t, i, j, a, j) && j < j + 1 && x == t.subrange(a, j));
        }
    }
}

/// Builds the `\citation{` marker text.
fn cite_pat() -> (r: Vec<char>)
    ensures
        r@ == cite_marker(),
{
    let mut v: Vec<char> = Vec::new();
    v.push('\\');
    v.push('c');
    v.push('i');
    v.push('t');
    v.push('a');
    v.push('t');
    v.push('i');
    v.push('o');
    v.push('n');
    v.push('{');
    proof {
        assert(v@ =~= cite_marker());
    }
    v
}

/// Builds the `\abx@aux@cite{` marker text.
fn abx_pat() -> (r: Vec<char>)
    ensures
        r@ == abx_marker(),
{
    let mut v: Vec<char> = Vec::new();
    v.push('\\');
    v.push('a');
    v.push('b');
    v.push('x');
    v.push('@');
    v.push('a');
    v.push('u');
    v.push('x');
    v.push('@');
    v.push('c');
    v.push('i');
    v.push('t');
    v.push('e');
    v.push('{');
    proof {
        assert(v@ =~= abx_marker());
    }
    v
}

/// Extracts every citation key named by an auxiliary-file marker in
/// `text`: the result is sorted lexicographically, holds no duplicates,
/// and holds exactly the keys of the text's markers.
pub fn extract_aux_keys(text: &str) -> (keys: Vec<String>)
    ensures
        strictly_sorted_keys(keys@),
        forall|x: Seq<char>| #[trigger] has_key(keys@, x) <==> is_aux_key(text@, x),
{
    let ghost t = text@;
    let n = text.unicode_len();
    let cite = cite_pat();
    let abx = abx_pat();
    let mut keys: Vec<String> = Vec::new();
    proof {
        assert forall|x: Seq<char>| !#[trigger] is_aux_key_before(t, 0, x) by {
            if is_aux_key_before(t, 0, x) {
                let m2 = choose|m2: int| m2 < 0 && aux_key_from(t, m2, x);
                let (a2, b2) = choose|a2: int, b2: int|
                    aux_key_span(t, m2, a2, b2) && x == t.subrange(a2, b2);
                assert(aux_marker_at(t, m2));
            }
        }
    }
    let mut m: usize = 0;
    while m < n
        invariant
            m <= n,
            n == t.len(),
            text@ == t,
            cite@ == cite_marker(),
            abx@ == abx_marker(),
            strictly_sorted_keys(keys@),
            forall|x: Seq<char>| #[trigger] has_key(keys@, x) <==> is_aux_key_before(
                t,
                m as int,
                x,
            ),
        decreases n - m,
    {
        let hit_cite = matches_pat(text, n, m, &cite);
        let hit_abx = if hit_cite {
            false
        } else {
            matches_pat(text, n, m, &abx)
        };
        if hit_cite || hit_abx {
            proof {
                assert(cite_marker().len() == 10);
                assert(abx_marker().len() == 14);
            }
            let i = if hit_cite {
                m + 10
            } else {
                m + 14
            };
            proof {
                assert(i as int == aux_payload_start(t, m as int));
                assert(i <= n);
            }
            match find_delim(text, n, i, '}') {
                Some(j) => {
                    let mut a: usize = i;
                    let mut c: usize = i;
                    proof {
                        assert forall|x: Seq<char>|
                            !#[trigger] seg_key_below(t, i as int, j as int, i as int, x) by {
                            if seg_key_below(t, i as int, j as int, i as int, x) {
                                let (a2, b2) = choose|a2: int, b2: int|
                                    comma_segment_at(t, i as int, j as int, a2, b2) && b2 < i
                                        as int && x == t.subrange(a2, b2);
                            }
                        }
                    }
                    while c < j
                        invariant
                            i <= a <= c <= j,
                            j < n,
                            n == t.len(),
                            text@ == t,
                            a == i || t[a - 1] == ',',
                            forall|p: int| a <= p < c ==> t[p] != ',',
                            strictly_sorted_keys(keys@),
                            forall|x: Seq<char>| #[trigger] has_key(keys@, x)
                                <==> is_aux_key_before(t, m as int, x) || seg_key_below(
                                t,
                                i as int,
                                j as int,
                                c as int,
                                x,
                            ),
                        decreases j - c,
                    {
                        let ch = text.get_char(c);
                        if ch == ',' {
                            proof {
                                lemma_seg_step_comma(t, i as int, j as int, a as int, c as int);
                            }
                            if c > a {
                                let piece: String = text.substring_char(a, c).to_owned();
                                proof {
                                    assert(piece@ == t.subrange(a as int, c as int));
                                }
                                insert_key(&mut keys, piece);
                            }
                            a = c + 1;
                        } else {
                            proof {
                                lemma_seg_step_plain(t, i as int, j as int, c as int);
                            }
                        }
                        c += 1;
                    }
                    proof {
                        lemma_seg_step_last(t, i as int, j as int, a as int);
                    }
                    if a < j {
                        let piece: String = text.substring_char(a, j).to_owned();
                        insert_key(&mut keys, piece);
                    }
                    proof {
                        lemma_aux_step_done(t, m as int, j as int);
                    }
                },
                None => {
                    proof {
                        lemma_aux_step_none(t, m as int);
                    }
                },
            }
        } else {
            proof {
                lemma_aux_step_none(t, m as int);
            }
        }
        m += 1;
    }
    proof {
        assert forall|x: Seq<char>| #[trigger] has_key(keys@, x) <==> is_aux_key(t, x) by {
            if has_key(keys@, x) {
                let m2 = choose|m2: int| m2 < n as int && aux_key_from(t, m2, x);
                assert(is_aux_key(t, x));
            }
            if is_aux_key(t, x) {
                let m2 = choose|m2: int| aux_key_from(t, m2, x);
                let (a2, b2) = choose|a2: int, b2: int|
                    aux_key_span(t, m2, a2, b2) && x == t.subrange(a2, b2);
                assert(aux_marker_at(t, m2));
                assert(m2 < n as int);
                assert(is_aux_key_before(t, n as int, x));
            }
        }
    }
    keys
}

// ---- bibliography-log warning lines ----

/// The warning prefix of the first log dialect, `Warning--`.
pub open spec fn warn_head() -> Seq<char> {
    seq!['W', 'a', 'r', 'n', 'i', 'n', 'g', '-', '-']
}

/// The warning prefix of the second log dialect, `WARN - `.
pub open spec fn warn_head_alt() -> Seq<char> {
    seq!['W', 'A', 'R', 'N', ' ', '-', ' ']
}

/// The common body of a missing-entry warning, up to the opening quote:
/// `I didn't find a database entry for `.
pub open spec fn warn_tail() -> Seq<char> {
    seq![
        'I',
        ' ',
        'd',
        'i',
        'd',
        'n',
        '\'',
        't',
        ' ',
        'f',
        'i',
        'n',
        'd',
        ' ',
        'a',
        ' ',
        'd',
        'a',
        't',
        'a',
        'b',
        'a',
        's',
        'e',
        ' ',
        'e',
        'n',
        't',
        'r',
        'y',
        ' ',
        'f',
        'o',
        'r',
        ' ',
    ]
}

/// A missing-entry warning of either dialect opens at position `m`.
pub open spec fn log_marker_at(t: Seq<char>, m: int) -> bool {
    (matches_at(t, m, warn_head()) && matches_at(t, m + warn_head().len(), warn_tail()))
        || (matches_at(t, m, warn_head_alt()) && matches_at(
        t,
        m + warn_head_alt().len(),
        warn_tail(),
    ))
}

/// Where the quote delimiting the warning's key stands.  The two prefixes
/// differ in their second character, so only one can open at `m`.
pub open spec fn log_quote_pos(t: Seq<char>, m: int) -> int {
    if matches_at(t, m, warn_head()) {
        m + warn_head().len() + warn_tail().len()
    } else {
        m + warn_head_alt().len() + warn_tail().len()
    }
}

/// Straight double or straight single quote.
pub open spec fn is_quote(q: char) -> bool {
    q == '"' || q == '\''
}

/// The warning opening at `m` quotes a non-empty key that ends at the
/// matching quote at position `j`, before any line break.
pub open spec fn log_key_span(t: Seq<char>, m: int, j: int) -> bool {
    log_marker_at(t, m) && {
        let qp = log_quote_pos(t, m);
        qp < t.len() && is_quote(t[qp]) && closed_span(t, qp + 1, j, t[qp]) && j > qp + 1
    }
}

/// `x` is the key quoted by the warning opening at `m`.
pub open spec fn log_key_from(t: Seq<char>, m: int, x: Seq<char>) -> bool {
    exists|j: int| log_key_span(t, m, j) && x == t.subrange(log_quote_pos(t, m) + 1, j)
}

/// `x` is a missing-entry key reported somewhere in the log text `t`.
pub open spec fn is_log_key(t: Seq<char>, x: Seq<char>) -> bool {
    exists|m: int| log_key_from(t, m, x)
}

/// `x` is reported by a warning opening before position `bound`.
spec fn is_log_key_before(t: Seq<char>, bound: int, x: Seq<char>) -> bool {
    exists|m: int| m < bound && log_key_from(t, m, x)
}

/// A position that opens no complete warning adds no keys.
proof fn lemma_log_step_none(t: Seq<char>, m: int)
    requires
        forall|j: int| !log_key_span(t, m, j),
    ensures
        forall|x: Seq<char>|
            #[trigger] is_log_key_before(t, m + 1, x) <==> is_log_key_before(t, m, x),
{
    assert forall|x: Seq<char>|
        #[trigger] is_log_key_before(t, m + 1, x) <==> is_log_key_before(t, m, x) by {
        if is_log_key_before(t, m + 1, x) {
            let m2 = choose|m2: int| m2 < m + 1 && log_key_from(t, m2, x);
            if m2 == m {
                let j = choose|j: int| log_key_span(t, m, j) && x == t.subrange(
                    log_quote_pos(t, m) + 1,
                    j,
                );
                assert(false);
            }
            assert(m2 < m && log_key_from(t, m2, x));
        }
        if is_log_key_before(t, m, x) {
            let m2 = choose|m2: int| m2 < m && log_key_from(t, m2, x);
            assert(m2 < m + 1 && log_key_from(t, m2, x));
        }
    }
}

/// A complete warning at `m`, closing at `j`, adds exactly its quoted key.
proof fn lemma_log_step_add(t: Seq<char>, m: int, j: int)
    requires
        log_key_span(t, m, j),
    ensures
        forall|x: Seq<char>|
            #[trigger] is_log_key_before(t, m + 1, x) <==> is_log_key_before(t, m, x) || x
                == t.subrange(log_quote_pos(t, m) + 1, j),
{
    let qp = log_quote_pos(t, m);
    assert forall|x: Seq<char>|
        #[trigger] is_log_key_before(t, m + 1, x) <==> is_log_key_before(t, m, x) || x
            == t.subrange(qp + 1, j) by {
        if is_log_key_before(t, m + 1, x) {
            let m2 = choose|m2: int| m2 < m + 1 && log_key_from(t, m2, x);
            if m2 == m {
                let j2 = choose|j2: int| log_key_span(t, m, j2) && x == t.subrange(qp + 1, j2);
                lemma_closed_span_unique(t, qp + 1, j2, j, t[qp]);
                assert(x == t.subrange(qp + 1, j));
            } else {
                assert(m2 < m && log_key_from(t, m2, x));
            }
        }
        if is_log_key_before(t, m, x) {
            let m2 = choose|m2: int| m2 < m && log_key_from(t, m2, x);
            assert(m2 < m + 1 && log_key_from(t, m2, x));
        }
        if x == t.subrange(qp + 1, j) {
            assert(log_key_span(t, m, j) && x == t.subrange(log_quote_pos(t, m) + 1, j));
            assert(log_key_from(t, m, x));
            assert(m < m + 1 && log_key_from(t, m, x));
        }
    }
}

/// Builds the `Warning--` prefix text.
fn warn_head_pat() -> (r: Vec<char>)
    ensures
        r@ == warn_head(),
{
    let mut v: Vec<char> = Vec::new();
    v.push('W');
    v.push('a');
    v.push('r');
    v.push('n');
    v.push('i');
    v.push('n');
    v.push('g');
    v.push('-');
    v.push('-');
    proof {
        assert(v@ =~= warn_head());
    }
    v
}

/// Builds the `WARN - ` prefix text.
fn warn_head_alt_pat() -> (r: Vec<char>)
    ensures
        r@ == warn_head_alt(),
{
    let mut v: Vec<char> = Vec::new();
    v.push('W');
    v.push('A');
    v.push('R');
    v.push('N');
    v.push(' ');
    v.push('-');
    v.push(' ');
    proof {
        assert(v@ =~= warn_head_alt());
    }
    v
}

/// Builds the common warning body text.
fn warn_tail_pat() -> (r: Vec<char>)
    ensures
        r@ == warn_tail(),
{
    let mut v: Vec<char> = Vec::new();
    v.push('I');
    v.push(' ');
    v.push('d');
    v.push('i');
    v.push('d');
    v.push('n');
    v.push('\'');
    v.push('t');
    v.push(' ');
    v.push('f');
    v.push('i');
    v.push('n');
    v.push('d');
    v.push(' ');
    v.push('a');
    v.push(' ');
    v.push('d');
    v.push('a');
    v.push('t');
    v.push('a');
    v.push('b');
    v.push('a');
    v.push('s');
    v.push('e');
    v.push(' ');
    v.push('e');
    v.push('n');
    v.push('t');
    v.push('r');
    v.push('y');
    v.push(' ');
    v.push('f');
    v.push('o');
    v.push('r');
    v.push(' ');
    proof {
        assert(v@ =~= warn_tail());
    }
    v
}

/// Extracts every key reported missing by a bibliography-log warning line
/// in `text`: the result is sorted lexicographically, holds no duplicates,
/// and holds exactly the quoted keys.
pub fn extract_log_keys(text: &str) -> (keys: Vec<String>)
    ensures
        strictly_sorted_keys(keys@),
        forall|x: Seq<char>| #[trigger] has_key(keys@, x) <==> is_log_key(text@, x),
{
    let ghost t = text@;
    let n = text.unicode_len();
    let head = warn_head_pat();
    let head_alt = warn_head_alt_pat();
    let tail = warn_tail_pat();
    let mut keys: Vec<String> = Vec::new();
    proof {
        assert forall|x: Seq<char>| !#[trigger] is_log_key_before(t, 0, x) by {
            if is_log_key_before(t, 0, x) {
                let m2 = choose|m2: int| m2 < 0 && log_key_from(t, m2, x);
                let j = choose|j: int| log_key_span(t, m2, j) && x == t.subrange(
                    log_quote_pos(t, m2) + 1,
                    j,
                );
                assert(log_marker_at(t, m2));
            }
        }
    }
    let mut m: usize = 0;
    while m < n
        invariant
            m <= n,
            n == t.len(),
            text@ == t,
            head@ == warn_head(),
            head_alt@ == warn_head_alt(),
            tail@ == warn_tail(),
            strictly_sorted_keys(keys@),
            forall|x: Seq<char>| #[trigger] has_key(keys@, x) <==> is_log_key_before(
                t,
                m as int,
                x,
            ),
        decreases n - m,
    {
        proof {
            assert(warn_head().len() == 9);
            assert(warn_head_alt().len() == 7);
            assert(warn_tail().len() == 35);
        }
        let mut marked = false;
        let mut qp: usize = 0;
        if matches_pat(text, n, m, &head) {
            if matches_pat(text, n, m + 9, &tail) {
                marked = true;
                qp = m + 44;
            }
        } else if matches_pat(text, n, m, &head_alt) {
            if matches_pat(text, n, m + 7, &tail) {
                marked = true;
                qp = m + 42;
            }
        }
        proof {
            if matches_at(t, m as int, warn_head()) && matches_at(t, m as int, warn_head_alt()) {
                assert(t.subrange(m as int, m + 9)[1] == 'a');
                assert(t.subrange(m as int, m + 7)[1] == 'A');
                assert(false);
            }
            assert(marked == log_marker_at(t, m as int));
            if marked {
                assert(qp as int == log_quote_pos(t, m as int));
            }
        }
        if marked && qp < n {
            let q = text.get_char(qp);
            if q == '"' || q == '\'' {
                match find_delim(text, n, qp + 1, q) {
                    Some(j) => {
                        if j > qp + 1 {
                            let piece: String = text.substring_char(qp + 1, j).to_owned();
                            insert_key(&mut keys, piece);
                            proof {
                                assert(log_key_span(t, m as int, j as int));
                                lemma_log_step_add(t, m as int, j as int);
                            }
                        } else {
                            proof {
                                assert forall|j2: int| !log_key_span(t, m as int, j2) by {
                                    if log_key_span(t, m as int, j2) {
                                        lemma_closed_span_unique(
                                            t,
                                            qp + 1,
                                            j2,
                                            j as int,
                                            t[qp as int],
                                        );
                                    }
                                }
                                lemma_log_step_none(t, m as int);
                            }
                        }
                    },
                    None => {
                        proof {
                            assert forall|j2: int| !log_key_span(t, m as int, j2) by {
                                if log_key_span(t, m as int, j2) {
                                    assert(closed_span(t, qp + 1, j2, t[qp as int]));
                                }
                            }
                            lemma_log_step_none(t, m as int);
                        }
                    },
                }
            } else {
                proof {
                    assert forall|j2: int| !log_key_span(t, m as int, j2) by {
                        if log_key_span(t, m as int, j2) {
                            assert(is_quote(t[qp as int]));
                        }
                    }
                    lemma_log_step_none(t, m as int);
                }
            }
        } else {
            proof {
                assert forall|j2: int| !log_key_span(t, m as int, j2) by {
                    if log_key_span(t, m as int, j2) {
                        assert(log_marker_at(t, m as int));
                        assert(log_quote_pos(t, m as int) < t.len());
                    }
                }
                lemma_log_step_none(t, m as int);
            }
        }
        m += 1;
    }
    proof {
        assert forall|x: Seq<char>| #[trigger] has_key(keys@, x) <==> is_log_key(t, x) by {
            if has_key(keys@, x) {
                let m2 = choose|m2: int| m2 < n as int && log_key_from(t, m2, x);
                assert(is_log_key(t, x));
            }
            if is_log_key(t, x) {
                let m2 = choose|m2: int| log_key_from(t, m2, x);
                let j = choose|j: int| log_key_span(t, m2, j) && x == t.subrange(
                    log_quote_pos(t, m2) + 1,
                    j,
                );
                assert(log_marker_at(t, m2));
                assert(m2 < n as int);
                assert(is_log_key_before(t, n as int, x));
            }
        }
    }
    keys
}

// ---- stated properties of extraction ----

/// Text holding no citation marker yields no keys: any vector meeting the
/// contract of `extract_aux_keys` on such text is empty.
pub proof fn lemma_no_markers_no_keys(t: Seq<char>, keys: Seq<String>)
    requires
        forall|m: int| !aux_marker_at(t, m),
        forall|x: Seq<char>| #[trigger] has_key(keys, x) <==> is_aux_key(t, x),
    ensures
        keys.len() == 0,
{
    if keys.len() > 0 {
        assert(has_key(keys, keys[0]@));
        assert(is_aux_key(t, keys[0]@));
        let m = choose|m: int| aux_key_from(t, m, keys[0]@);
        let (a2, b2) = choose|a2: int, b2: int|
            aux_key_span(t, m, a2, b2) && keys[0]@ == t.subrange(a2, b2);
        assert(aux_marker_at(t, m));
        assert(false);
    }
}

/// A marker whose payload closes at `j` and holds no comma contributes the
/// whole payload as one key of the text.
pub proof fn lemma_single_key_marker(t: Seq<char>, m: int, j: int)
    requires
        aux_marker_at(t, m),
        closed_span(t, aux_payload_start(t, m), j, '}'),
        j > aux_payload_start(t, m),
        forall|p: int| aux_payload_start(t, m) <= p < j ==> t[p] != ',',
    ensures
        is_aux_key(t, t.subrange(aux_payload_start(t, m), j)),
{
    let i = aux_payload_start(t, m);
    assert(comma_segment_at(t, i, j, i, j));
    lemma_marker_segment_is_key(t, m, j, i, j);
}

/// Every comma-bounded piece of a closed marker payload is one key of the
/// text: a marker listing several keys contributes each of them.
pub proof fn lemma_marker_segment_is_key(t: Seq<char>, m: int, j: int, a: int, b: int)
    requires
        aux_marker_at(t, m),
        closed_span(t, aux_payload_start(t, m), j, '}'),
        comma_segment_at(t, aux_payload_start(t, m), j, a, b),
    ensures
        is_aux_key(t, t.subrange(a, b)),
{
    let i = aux_payload_start(t, m);
    assert(closed_span(t, i, j, '}') && comma_segment_at(t, i, j, a, b));
    assert(aux_key_span(t, m, a, b));
    assert(aux_key_span(t, m, a, b) && t.subrange(a, b) == t.subrange(a, b));
    assert(aux_key_from(t, m, t.subrange(a, b)));
    assert(is_aux_key(t, t.subrange(a, b)));
}

/// A complete warning line contributes its quoted payload as a key of the
/// log text, whichever dialect and whichever quote style it uses.
pub proof fn lemma_warning_quoted_key(t: Seq<char>, m: int, j: int)
    requires
        log_key_span(t, m, j),
    ensures
        is_log_key(t, t.subrange(log_quote_pos(t, m) + 1, j)),
{
    let x = t.subrange(log_quote_pos(t, m) + 1, j);
    assert(log_key_span(t, m, j) && x == t.subrange(log_quote_pos(t, m) + 1, j));
    assert(log_key_from(t, m, x));
    assert(is_log_key(t, x));
}

/// Extracting from the same auxiliary text twice yields identical key
/// sets: any two vectors meeting the contract of `extract_aux_keys` agree
/// element for element.
pub proof fn lemma_aux_extraction_deterministic(
    t: Seq<char>,
    keys1: Seq<String>,
    keys2: Seq<String>,
)
    requires
        strictly_sorted_keys(keys1),
        strictly_sorted_keys(keys2),
        forall|x: Seq<char>| #[trigger] has_key(keys1, x) <==> is_aux_key(t, x),
        forall|x: Seq<char>| #[trigger] has_key(keys2, x) <==> is_aux_key(t, x),
    ensures
        keys1.len() == keys2.len(),
        forall|i: int| 0 <= i < keys1.len() ==> (#[trigger] keys1[i]@) == keys2[i]@,
{
    crate::keyset::lemma_sorted_same_keys_equal(keys1, keys2);
}

/// Extracting from the same log text twice yields identical key sets: any
/// two vectors meeting the contract of `extract_log_keys` agree element
/// for element.
pub proof fn lemma_log_extraction_deterministic(
    t: Seq<char>,
    keys1: Seq<String>,
    keys2: Seq<String>,
)
    requires
        strictly_sorted_keys(keys1),
        strictly_sorted_keys(keys2),
        forall|x: Seq<char>| #[trigger] has_key(keys1, x) <==> is_log_key(t, x),
        forall|x: Seq<char>| #[trigger] has_key(keys2, x) <==> is_log_key(t, x),
    ensures
        keys1.len() == keys2.len(),
        forall|i: int| 0 <= i < keys1.len() ==> (#[trigger] keys1[i]@) == keys2[i]@,
{
    crate::keyset::lemma_sorted_same_keys_equal(keys1, keys2);
}

} // verus!
