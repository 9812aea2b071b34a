//! Classification of citation keys by probable source database.
//!
//! A key is matched against the key grammar of each known bibliographic
//! database in a fixed priority order — the INSPIRE literature database
//! first, then the ADS abstract service — and the first grammar that
//! accepts wins.  A key no grammar accepts is left unclassified, which is
//! an ordinary outcome, not an error.

use vstd::prelude::*;

verus! {

/// ASCII uppercase letter.
pub open spec fn is_upper(ch: char) -> bool {
    ('A' as u32) <= (ch as u32) && (ch as u32) <= ('Z' as u32)
}

/// ASCII lowercase letter.
pub open spec fn is_lower(ch: char) -> bool {
    ('a' as u32) <= (ch as u32) && (ch as u32) <= ('z' as u32)
}

/// ASCII letter of either case.
pub open spec fn is_letter(ch: char) -> bool {
    is_upper(ch) || is_lower(ch)
}

/// ASCII decimal digit.
pub open spec fn is_digit(ch: char) -> bool {
    ('0' as u32) <= (ch as u32) && (ch as u32) <= ('9' as u32)
}

fn check_upper(c: char) -> (r: bool)
    ensures
        r == is_upper(c),
{
    let u: u32 = c as u32;
    65 <= u && u <= 90
}

fn check_lower(c: char) -> (r: bool)
    ensures
        r == is_lower(c),
{
    let u: u32 = c as u32;
    97 <= u && u <= 122
}

fn check_letter(c: char) -> (r: bool)
    ensures
        r == is_letter(c),
{
    check_upper(c) || check_lower(c)
}

fn check_digit(c: char) -> (r: bool)
    ensures
        r == is_digit(c),
{
    let u: u32 = c as u32;
    48 <= u && u <= 57
}

/// The INSPIRE key grammar, with its colon at position `c`: a non-empty
/// author prefix of ASCII letters, a colon, a four-digit year, and a
/// two- or three-character lowercase suffix.
pub open spec fn inspire_parts(s: Seq<char>, c: int) -> bool {
    &&& 1 <= c
    &&& c + 7 <= s.len()
    &&& s.len() <= c + 8
    &&& s[c] == ':'
    &&& forall|p: int| 0 <= p < c ==> is_letter(s[p])
    &&& forall|p: int| c < p <= c + 4 ==> is_digit(s[p])
    &&& forall|p: int| c + 4 < p < s.len() ==> is_lower(s[p])
}

/// `s` is a key in the INSPIRE literature database's format,
/// e.g. `Randall:1999ee`.
pub open spec fn is_inspire_key(s: Seq<char>) -> bool {
    exists|c: int| inspire_parts(s, c)
}

/// `s` is a key in the ADS bibcode format: a four-digit year, a
/// five-character journal code of letters, dots or an ampersand, a volume
/// field of digits padded with dots, a qualifier, a page field of digits
/// padded with dots, and an uppercase author initial,
/// e.g. `1999PhRvL..83.3370R`.
pub open spec fn is_ads_key(s: Seq<char>) -> bool {
    &&& s.len() == 19
    &&& forall|p: int| 0 <= p < 4 ==> is_digit(s[p])
    &&& forall|p: int| 4 <= p < 9 ==> is_letter(s[p]) || s[p] == '.' || s[p] == '&'
    &&& forall|p: int| 9 <= p < 13 ==> is_digit(s[p]) || s[p] == '.'
    &&& is_letter(s[13]) || is_digit(s[13]) || s[13] == '.'
    &&& forall|p: int| 14 <= p < 18 ==> is_digit(s[p]) || s[p] == '.'
    &&& is_upper(s[18])
}

/// The length of the run of ASCII letters opening `s`.
fn letter_prefix_len(s: &str, n: usize) -> (p: usize)
    requires
        n == s@.len(),
    ensures
        p <= n,
        forall|q: int| 0 <= q < p ==> is_letter(s@[q]),
        p < n ==> !is_letter(s@[p as int]),
{
    let mut p: usize = 0;
    while p < n
        invariant
            p <= n,
            n == s@.len(),
            forall|q: int| 0 <= q < p ==> is_letter(s@[q]),
        decreases n - p,
    {
        if !check_letter(s.get_char(p)) {
            return p;
        }
        p += 1;
    }
    p
}

/// The colon of an INSPIRE-form key can only stand where the opening run
/// of letters ends.
proof fn lemma_inspire_colon_unique(s: Seq<char>, p: int, c: int)
    requires
        0 <= p <= s.len(),
        forall|q: int| 0 <= q < p ==> is_letter(s[q]),
        p < s.len() ==> !is_letter(s[p]),
        inspire_parts(s, c),
    ensures
        c == p,
{
    assert(!is_letter(':'));
    if c < p {
        assert(is_letter(s[c]));
        assert(false);
    }
    if c > p {
        assert(p < s.len());
        assert(is_letter(s[p]));
        assert(false);
    }
}

/// Accepts exactly the keys in the INSPIRE key grammar.
pub fn validate_inspire_key(s: &str) -> (r: bool)
    ensures
        r == is_inspire_key(s@),
{
    let n = s.unicode_len();
    let p = letter_prefix_len(s, n);
    if p == 0 || p >= n {
        proof {
            assert forall|c: int| !inspire_parts(s@, c) by {
                if inspire_parts(s@, c) {
                    lemma_inspire_colon_unique(s@, p as int, c);
                }
            }
        }
        return false;
    }
    if s.get_char(p) != ':' {
        proof {
            assert forall|c: int| !inspire_parts(s@, c) by {
                if inspire_parts(s@, c) {
                    lemma_inspire_colon_unique(s@, p as int, c);
                }
            }
        }
        return false;
    }
    if n - p < 7 || n - p > 8 {
        proof {
            assert forall|c: int| !inspire_parts(s@, c) by {
                if inspire_parts(s@, c) {
                    lemma_inspire_colon_unique(s@, p as int, c);
                }
            }
        }
        return false;
    }
    let mut q: usize = p + 1;
    while q < p + 5
        invariant
            p + 7 <= n <= p + 8,
            n == s@.len(),
            p + 1 <= q <= p + 5,
            forall|q2: int| 0 <= q2 < p ==> is_letter(s@[q2]),
            s@[p as int] == ':',
            forall|q2: int| p < q2 < q ==> is_digit(s@[q2]),
        decreases p + 5 - q,
    {
        if !check_digit(s.get_char(q)) {
            proof {
                assert(!is_letter(':'));
                assert forall|c: int| !inspire_parts(s@, c) by {
                    if inspire_parts(s@, c) {
                        lemma_inspire_colon_unique(s@, p as int, c);
                        assert(is_digit(s@[q as int]));
                    }
                }
            }
            return false;
        }
        q += 1;
    }
    let mut q: usize = p + 5;
    while q < n
        invariant
            p + 7 <= n <= p + 8,
            n == s@.len(),
            p + 5 <= q <= n,
            forall|q2: int| 0 <= q2 < p ==> is_letter(s@[q2]),
            s@[p as int] == ':',
            forall|q2: int| p + 5 <= q2 < q ==> is_lower(s@[q2]),
        decreases n - q,
    {
        if !check_lower(s.get_char(q)) {
            proof {
                assert(!is_letter(':'));
                assert forall|c: int| !inspire_parts(s@, c) by {
                    if inspire_parts(s@, c) {
                        lemma_inspire_colon_unique(s@, p as int, c);
                        assert(is_lower(s@[q as int]));
                    }
                }
            }
            return false;
        }
        q += 1;
    }
    proof {
        assert(inspire_parts(s@, p as int));
    }
    true
}

/// Accepts exactly the keys in the ADS bibcode grammar.
pub fn validate_ads_key(s: &str) -> (r: bool)
    ensures
        r == is_ads_key(s@),
{
    let n = s.unicode_len();
    if n != 19 {
        return false;
    }
    let mut p: usize = 0;
    while p < 4
        invariant
            n == s@.len(),
            n == 19,
            p <= 4,
            forall|q: int| 0 <= q < p ==> is_digit(s@[q]),
        decreases 4 - p,
    {
        if !check_digit(s.get_char(p)) {
            return false;
        }
        p += 1;
    }
    let mut p: usize = 4;
    while p < 9
        invariant
            n == s@.len(),
            n == 19,
            4 <= p <= 9,
            forall|q: int| 4 <= q < p ==> is_letter(s@[q]) || s@[q] == '.' || s@[q] == '&',
        decreases 9 - p,
    {
        let c = s.get_char(p);
        if !(check_letter(c) || c == '.' || c == '&') {
            return false;
        }
        p += 1;
    }
    let mut p: usize = 9;
    while p < 13
        invariant
            n == s@.len(),
            n == 19,
            9 <= p <= 13,
            forall|q: int| 9 <= q < p ==> is_digit(s@[q]) || s@[q] == '.',
        decreases 13 - p,
    {
        let c = s.get_char(p);
        if !(check_digit(c) || c == '.') {
            return false;
        }
        p += 1;
    }
    let c13 = s.get_char(13);
    if !(check_letter(c13) || check_digit(c13) || c13 == '.') {
        return false;
    }
    let mut p: usize = 14;
    while p < 18
        invariant
            n == s@.len(),
            n == 19,
            14 <= p <= 18,
            forall|q: int| 14 <= q < p ==> is_digit(s@[q]) || s@[q] == '.',
        decreases 18 - p,
    {
        let c = s.get_char(p);
        if !(check_digit(c) || c == '.') {
            return false;
        }
        p += 1;
    }
    if !check_upper(s.get_char(18)) {
        return false;
    }
    true
}

/// A validated identifier in the INSPIRE literature database's key space.
#[derive(Debug, PartialEq, Clone, Copy)]
pub struct RecId<'a> {
    pub id: &'a str,
}

impl<'a> RecId<'a> {
    /// The identifier meets the INSPIRE key grammar.
    pub open spec fn wf(self) -> bool {
        is_inspire_key(self.id@)
    }

    /// Accepts exactly the identifiers in the INSPIRE key grammar.
    pub fn new(id: &'a str) -> (r: Option<RecId<'a>>)
        ensures
            r is Some <==> is_inspire_key(id@),
            r is Some ==> r->0 == (RecId { id }),
    {
        if validate_inspire_key(id) {
            Some(RecId { id })
        } else {
            None
        }
    }
}

/// A validated identifier in the ADS abstract service's key space.
#[derive(Debug, PartialEq, Clone, Copy)]
pub struct BibCode<'a> {
    pub bibcode: &'a str,
}

impl<'a> BibCode<'a> {
    /// The identifier meets the ADS bibcode grammar.
    pub open spec fn wf(self) -> bool {
        is_ads_key(self.bibcode@)
    }

    /// Accepts exactly the identifiers in the ADS bibcode grammar.
    pub fn new(bibcode: &'a str) -> (r: Option<BibCode<'a>>)
        ensures
            r is Some <==> is_ads_key(bibcode@),
            r is Some ==> r->0 == (BibCode { bibcode }),
    {
        if validate_ads_key(bibcode) {
            Some(BibCode { bibcode })
        } else {
            None
        }
    }
}

/// The probable source database of a citation key, carrying the validated
/// key handle when one grammar accepted the key.
#[derive(Debug, PartialEq)]
pub enum Sources<'a> {
    Inspire(RecId<'a>),
    Ads(BibCode<'a>),
    Arxiv,
    Unclassified,
}

/// What classifying `s` gives: the first key grammar that accepts `s`, in
/// priority order — INSPIRE before ADS — and `Unclassified` when none
/// does.
pub open spec fn classified<'a>(s: &'a str) -> Sources<'a> {
    if is_inspire_key(s@) {
        Sources::Inspire(RecId { id: s })
    } else if is_ads_key(s@) {
        Sources::Ads(BibCode { bibcode: s })
    } else {
        Sources::Unclassified
    }
}

impl<'a> From<&'a str> for Sources<'a> {
    /// Guesses the source database of a key by trying each grammar in
    /// priority order; every key gets exactly one answer.
    fn from(s: &'a str) -> (r: Sources<'a>) {
        if let Some(k) = RecId::new(s) {
            Sources::Inspire(k)
        } else if let Some(k) = BibCode::new(s) {
            Sources::Ads(k)
        } else {
            Sources::Unclassified
        }
    }
}

impl<'a> vstd::std_specs::convert::FromSpecImpl<&'a str> for Sources<'a> {
    open spec fn obeys_from_spec() -> bool {
        true
    }

    open spec fn from_spec(s: &'a str) -> Sources<'a> {
        classified(s)
    }
}

/// Classification is total and unambiguous: every key falls in exactly one
/// class, decided by grammar priority — a key both grammars would accept
/// goes to INSPIRE by design, and a key neither accepts is unclassified,
/// which is an ordinary outcome.
pub proof fn lemma_classify_total<'a>(s: &'a str)
    ensures
        is_inspire_key(s@) ==> classified(s) == Sources::Inspire(RecId { id: s }),
        !is_inspire_key(s@) && is_ads_key(s@) ==> classified(s) == Sources::Ads(
            BibCode { bibcode: s },
        ),
        !is_inspire_key(s@) && !is_ads_key(s@) ==> classified(s) == Sources::<'a>::Unclassified,
{
}

} // verus!
