use vstd::prelude::*;
use crate::chars::{
    spec_is_digit, spec_is_word, spec_is_space, lc, is_digit, is_word, is_space, lc_x,
    chars_to_string, sub_chars,
};

verus! {

// ---------------------------------------------------------------------------
// The key grammar.
//
// Matching runs over document text whose whitespace has been collapsed
// away. A transport-key occurrence is an opening marker `<` word-chars `>`
// whose word run contains "cte" (case-insensitively, after at least one
// word character), an optional `<chave>` wrapper, exactly 44 digits, an
// optional `</chave>` wrapper, and a closing marker of the same family. An
// invoice-key occurrence captures its opening word run verbatim as the
// origin marker, and after the digits skips minimally to the next closing
// marker containing "nfe"; the caller is responsible for rejecting a match
// whose opening and closing texts differ.
// ---------------------------------------------------------------------------

/// Document text once every whitespace character is removed.
pub open spec fn collapse(s: Seq<char>) -> Seq<char> {
    s.filter(|c: char| !spec_is_space(c))
}

/// Removes every whitespace character of `t`, keeping the rest in order.
pub fn strip_spaces(t: &Vec<char>) -> (v: Vec<char>)
    ensures
        v@ == collapse(t@),
{
    let mut v: Vec<char> = Vec::new();
    let mut i: usize = 0;
    while i < t.len()
        invariant
            i <= t@.len(),
            v@ == collapse(t@.subrange(0, i as int)),
        decreases t@.len() - i,
    {
        let ghost pre = t@.subrange(0, i as int);
        let ghost post = t@.subrange(0, i + 1 as int);
        proof {
            reveal(Seq::filter);
            assert(post.drop_last() =~= pre);
            assert(post.last() == t@[i as int]);
        }
        if !is_space(t[i]) {
            v.push(t[i]);
        }
        i += 1;
    }
    proof {
        assert(t@.subrange(0, t@.len() as int) =~= t@);
    }
    v
}

// ---------------------------------------------------------------------------
// Pattern primitives.
// ---------------------------------------------------------------------------

pub open spec fn cte_pat() -> Seq<char> {
    seq!['c', 't', 'e']
}

pub open spec fn nfe_pat() -> Seq<char> {
    seq!['n', 'f', 'e']
}

pub open spec fn chave_open_pat() -> Seq<char> {
    seq!['<', 'c', 'h', 'a', 'v', 'e', '>']
}

pub open spec fn chave_close_pat() -> Seq<char> {
    seq!['<', '/', 'c', 'h', 'a', 'v', 'e', '>']
}

/// The pattern occurs at position `k`, case-insensitively.
pub open spec fn needle_at(t: Seq<char>, k: int, pat: Seq<char>) -> bool {
    0 <= k && k + pat.len() <= t.len() && forall|m: int|
        0 <= m < pat.len() ==> lc(t[k + m]) == lc(pat[m])
}

/// The pattern occurs somewhere in `[lo, hi)`, case-insensitively.
pub open spec fn has_needle(t: Seq<char>, lo: int, hi: int, pat: Seq<char>) -> bool {
    exists|k: int| lo <= k && k + pat.len() <= hi && needle_at(t, k, pat)
}

/// Index of the first non-word character at or after `i`.
pub open spec fn word_end(t: Seq<char>, i: int) -> int
    decreases t.len() - i when 0 <= i <= t.len()
{
    if i >= t.len() {
        i
    } else if spec_is_word(t[i]) {
        word_end(t, i + 1)
    } else {
        i
    }
}

pub open spec fn all_digits(t: Seq<char>, lo: int, hi: int) -> bool {
    forall|m: int| lo <= m < hi ==> spec_is_digit(t[m])
}

/// Position after an optional `<chave>` wrapper.
pub open spec fn skip_open_chave(t: Seq<char>, p: int) -> int {
    if needle_at(t, p, chave_open_pat()) {
        p + 7
    } else {
        p
    }
}

/// Position after an optional `</chave>` wrapper.
pub open spec fn skip_close_chave(t: Seq<char>, p: int) -> int {
    if needle_at(t, p, chave_close_pat()) {
        p + 8
    } else {
        p
    }
}

// ---------------------------------------------------------------------------
// Transport-key grammar.
// ---------------------------------------------------------------------------

/// An opening transport marker `<` word-chars `>` at `i`, whose word run
/// contains "cte" after at least one word character; yields the position
/// after `>`.
pub open spec fn open_cte_end(t: Seq<char>, i: int) -> Option<int> {
    if 0 <= i && i < t.len() && t[i] == '<' {
        let j = word_end(t, i + 1);
        if j < t.len() && t[j] == '>' && has_needle(t, i + 2, j, cte_pat()) {
            Some(j + 1)
        } else {
            None
        }
    } else {
        None
    }
}

/// A closing transport marker `</` word-chars `>` at `i`.
pub open spec fn close_cte_end(t: Seq<char>, i: int) -> Option<int> {
    if 0 <= i && i + 1 < t.len() && t[i] == '<' && t[i + 1] == '/' {
        let j = word_end(t, i + 2);
        if j < t.len() && t[j] == '>' && has_needle(t, i + 3, j, cte_pat()) {
            Some(j + 1)
        } else {
            None
        }
    } else {
        None
    }
}

/// A whole transport-key occurrence starting at `i`: end position and the
/// 44 captured digits.
pub open spec fn cte_match_at(t: Seq<char>, i: int) -> Option<(int, Seq<char>)> {
    match open_cte_end(t, i) {
        Some(p0) => {
            let p1 = skip_open_chave(t, p0);
            if p1 + 44 <= t.len() && all_digits(t, p1, p1 + 44) {
                let p2 = skip_close_chave(t, p1 + 44);
                match close_cte_end(t, p2) {
                    Some(e) => Some((e, t.subrange(p1, p1 + 44))),
                    None => None,
                }
            } else {
                None
            }
        },
        None => None,
    }
}

/// All transport keys found scanning left to right from `i`, leftmost
/// match first, continuing after each match.
pub open spec fn scan_cte(t: Seq<char>, i: int) -> Seq<Seq<char>>
    decreases t.len() - i when 0 <= i
{
    if i >= t.len() {
        Seq::empty()
    } else {
        match cte_match_at(t, i) {
            Some((e, key)) => if i < e <= t.len() {
                seq![key] + scan_cte(t, e)
            } else {
                seq![key] + scan_cte(t, i + 1)
            },
            None => scan_cte(t, i + 1),
        }
    }
}

// ---------------------------------------------------------------------------
// Invoice-key grammar.
// ---------------------------------------------------------------------------

/// An opening invoice marker at `i`; yields the position after `>` and the
/// word run captured verbatim as the origin marker.
pub open spec fn open_nfe_at(t: Seq<char>, i: int) -> Option<(int, Seq<char>)> {
    if 0 <= i && i < t.len() && t[i] == '<' {
        let j = word_end(t, i + 1);
        if j < t.len() && t[j] == '>' && has_needle(t, i + 1, j, nfe_pat()) {
            Some((j + 1, t.subrange(i + 1, j)))
        } else {
            None
        }
    } else {
        None
    }
}

/// A closing invoice marker at `q`; yields the end position and the word
/// run captured verbatim.
pub open spec fn close_nfe_at(t: Seq<char>, q: int) -> Option<(int, Seq<char>)> {
    if 0 <= q && q + 1 < t.len() && t[q] == '<' && t[q + 1] == '/' {
        let j = word_end(t, q + 2);
        if j < t.len() && t[j] == '>' && has_needle(t, q + 2, j, nfe_pat()) {
            Some((j + 1, t.subrange(q + 2, j)))
        } else {
            None
        }
    } else {
        None
    }
}

/// The first closing invoice marker at or after `p`: the minimal skip the
/// grammar takes between the digits and the closing marker.
pub open spec fn find_close_nfe(t: Seq<char>, p: int) -> Option<(int, Seq<char>)>
    decreases t.len() - p when 0 <= p
{
    if p >= t.len() {
        None
    } else {
        match close_nfe_at(t, p) {
            Some(r) => Some(r),
            None => find_close_nfe(t, p + 1),
        }
    }
}

/// A whole invoice-key occurrence starting at `i`: end position, origin
/// marker, 44 captured digits, and closing marker text.
pub open spec fn nfe_match_at(t: Seq<char>, i: int) -> Option<
    (int, (Seq<char>, Seq<char>, Seq<char>)),
> {
    match open_nfe_at(t, i) {
        Some((p0, origin)) => {
            let p1 = skip_open_chave(t, p0);
            if p1 + 44 <= t.len() && all_digits(t, p1, p1 + 44) {
                let p2 = skip_close_chave(t, p1 + 44);
                match find_close_nfe(t, p2) {
                    Some((e, closing)) => Some((e, (origin, t.subrange(p1, p1 + 44), closing))),
                    None => None,
                }
            } else {
                None
            }
        },
        None => None,
    }
}

/// All invoice-key occurrences found scanning left to right from `i`.
pub open spec fn scan_nfe(t: Seq<char>, i: int) -> Seq<(Seq<char>, Seq<char>, Seq<char>)>
    decreases t.len() - i when 0 <= i
{
    if i >= t.len() {
        Seq::empty()
    } else {
        match nfe_match_at(t, i) {
            Some((e, m)) => if i < e <= t.len() {
                seq![m] + scan_nfe(t, e)
            } else {
                seq![m] + scan_nfe(t, i + 1)
            },
            None => scan_nfe(t, i + 1),
        }
    }
}

// ---------------------------------------------------------------------------
// Executable matching.
// ---------------------------------------------------------------------------

/// The compiled patterns, built once and passed by reference into the
/// scanners.
pub struct Pats {
    pub cte: Vec<char>,
    pub nfe: Vec<char>,
    pub chave_open: Vec<char>,
    pub chave_close: Vec<char>,
}

impl Pats {
    pub open spec fn wf(self) -> bool {
        self.cte@ == cte_pat() && self.nfe@ == nfe_pat() && self.chave_open@ == chave_open_pat()
            && self.chave_close@ == chave_close_pat()
    }

    pub fn new() -> (p: Pats)
        ensures
            p.wf(),
    {
        let p = Pats {
            cte: vec!['c', 't', 'e'],
            nfe: vec!['n', 'f', 'e'],
            chave_open: vec!['<', 'c', 'h', 'a', 'v', 'e', '>'],
            chave_close: vec!['<', '/', 'c', 'h', 'a', 'v', 'e', '>'],
        };
        proof {
            assert(p.cte@ =~= cte_pat());
            assert(p.nfe@ =~= nfe_pat());
            assert(p.chave_open@ =~= chave_open_pat());
            assert(p.chave_close@ =~= chave_close_pat());
        }
        p
    }
}

/// One raw invoice-key match: origin marker, key digits, closing marker.
#[derive(Debug, Clone)]
pub struct NfeMatch {
    pub origin: String,
    pub key: String,
    pub closing: String,
}

impl NfeMatch {
    /// The triple this match stands for.
    pub open spec fn triple(self) -> (Seq<char>, Seq<char>, Seq<char>) {
        (self.origin@, self.key@, self.closing@)
    }
}

fn word_end_x(t: &Vec<char>, i: usize) -> (j: usize)
    requires
        i <= t@.len(),
    ensures
        j == word_end(t@, i as int),
        i <= j <= t@.len(),
{
    let mut j = i;
    while j < t.len() && is_word(t[j])
        invariant
            i <= j <= t@.len(),
            word_end(t@, i as int) == word_end(t@, j as int),
        decreases t@.len() - j,
    {
        proof {
            assert(word_end(t@, j as int) == word_end(t@, j + 1 as int));
        }
        j += 1;
    }
    proof {
        assert(word_end(t@, j as int) == j as int);
    }
    j
}

fn all_digits_x(t: &Vec<char>, lo: usize, hi: usize) -> (r: bool)
    requires
        lo <= hi <= t@.len(),
    ensures
        r == all_digits(t@, lo as int, hi as int),
{
    let mut m = lo;
    while m < hi
        invariant
            lo <= m <= hi <= t@.len(),
            forall|x: int| lo <= x < m ==> spec_is_digit(t@[x]),
        decreases hi - m,
    {
        if !is_digit(t[m]) {
            return false;
        }
        m += 1;
    }
    true
}

/// Whether the pattern occurs exactly at `k`.
fn lit_at_x(t: &Vec<char>, k: usize, pat: &Vec<char>) -> (r: bool)
    requires
        k <= t@.len(),
    ensures
        r == needle_at(t@, k as int, pat@),
{
    let n = t.len();
    if n - k < pat.len() {
        return false;
    }
    let mut m: usize = 0;
    while m < pat.len()
        invariant
            m <= pat@.len(),
            k + pat@.len() <= t@.len(),
            t@.len() <= usize::MAX,
            forall|x: int| 0 <= x < m ==> lc(t@[k + x]) == lc(pat@[x]),
        decreases pat@.len() - m,
    {
        proof {
            assert(k + m < t@.len());
        }
        if lc_x(t[k + m]) != lc_x(pat[m]) {
            return false;
        }
        m += 1;
    }
    true
}

/// Whether the pattern occurs anywhere in `[lo, hi)`.
fn has_needle_x(t: &Vec<char>, lo: usize, hi: usize, pat: &Vec<char>) -> (r: bool)
    requires
        hi <= t@.len(),
        pat@.len() >= 1,
    ensures
        r == has_needle(t@, lo as int, hi as int, pat@),
{
    let mut k = lo;
    while k < hi && hi - k >= pat.len()
        invariant
            lo <= k,
            hi <= t@.len(),
            pat@.len() >= 1,
            forall|x: int| lo <= x < k ==> !(x + pat@.len() <= hi && needle_at(t@, x, pat@)),
        decreases hi - k,
    {
        if lit_at_x(t, k, pat) {
            proof {
                assert(k + pat@.len() <= hi);
                assert(has_needle(t@, lo as int, hi as int, pat@));
            }
            return true;
        }
        k += 1;
    }
    proof {
        assert forall|x: int|
            lo <= x && x + pat@.len() <= hi implies !needle_at(t@, x, pat@) by {
            assert(x < k);
        }
    }
    false
}

/// The transport-key occurrence starting exactly at `i`, if any.
fn cte_match_at_x(t: &Vec<char>, i: usize, pats: &Pats) -> (r: Option<(usize, String)>)
    requires
        i < t@.len(),
        pats.wf(),
    ensures
        r is Some <==> cte_match_at(t@, i as int) is Some,
        r is Some ==> {
            &&& cte_match_at(t@, i as int)->Some_0.0 == r->Some_0.0 as int
            &&& cte_match_at(t@, i as int)->Some_0.1 == r->Some_0.1@
            &&& i < r->Some_0.0 <= t@.len()
        },
{
    let n = t.len();
    if t[i] != '<' {
        return None;
    }
    let j = word_end_x(t, i + 1);
    if j >= n {
        return None;
    }
    if t[j] != '>' {
        return None;
    }
    if j < i + 2 || !has_needle_x(t, i + 2, j, &pats.cte) {
        proof {
            if j < i + 2 {
                assert(!has_needle(t@, i + 2 as int, j as int, cte_pat()));
            }
        }
        return None;
    }
    let p0 = j + 1;
    let p1 = if lit_at_x(t, p0, &pats.chave_open) {
        p0 + 7
    } else {
        p0
    };
    proof {
        assert(p1 as int == skip_open_chave(t@, p0 as int));
    }
    if t.len() - p1 < 44 {
        return None;
    }
    if !all_digits_x(t, p1, p1 + 44) {
        return None;
    }
    let d = p1 + 44;
    let p2 = if lit_at_x(t, d, &pats.chave_close) {
        d + 8
    } else {
        d
    };
    proof {
        assert(p2 as int == skip_close_chave(t@, d as int));
    }
    if t.len() - p2 < 2 {
        return None;
    }
    if t[p2] != '<' || t[p2 + 1] != '/' {
        return None;
    }
    let j2 = word_end_x(t, p2 + 2);
    if j2 >= t.len() {
        return None;
    }
    if t[j2] != '>' {
        return None;
    }
    if j2 < p2 + 3 || !has_needle_x(t, p2 + 3, j2, &pats.cte) {
        proof {
            if j2 < p2 + 3 {
                assert(!has_needle(t@, p2 + 3 as int, j2 as int, cte_pat()));
            }
        }
        return None;
    }
    let key_chars = sub_chars(t, p1, d);
    let key = chars_to_string(&key_chars);
    Some((j2 + 1, key))
}

/// Scans the whole text for transport keys.
pub fn scan_cte_x(t: &Vec<char>, pats: &Pats) -> (keys: Vec<String>)
    requires
        pats.wf(),
    ensures
        keys@.map_values(|s: String| s@) == scan_cte(t@, 0),
{
    let mut keys: Vec<String> = Vec::new();
    let mut i: usize = 0;
    proof {
        assert(keys@.map_values(|s: String| s@) =~= Seq::<Seq<char>>::empty());
    }
    while i < t.len()
        invariant
            i <= t@.len(),
            pats.wf(),
            scan_cte(t@, 0) == keys@.map_values(|s: String| s@) + scan_cte(t@, i as int),
        decreases t@.len() - i,
    {
        let m = cte_match_at_x(t, i, pats);
        match m {
            Some((e, k)) => {
                proof {
                    let old_map = keys@.map_values(|s: String| s@);
                    assert(scan_cte(t@, i as int) == seq![k@] + scan_cte(t@, e as int));
                    assert(keys@.push(k).map_values(|s: String| s@) =~= old_map.push(k@));
                    assert(old_map + (seq![k@] + scan_cte(t@, e as int)) =~= old_map.push(k@)
                        + scan_cte(t@, e as int));
                }
                keys.push(k);
                i = e;
            },
            None => {
                proof {
                    assert(scan_cte(t@, i as int) == scan_cte(t@, i + 1 as int));
                }
                i += 1;
            },
        }
    }
    proof {
        assert(scan_cte(t@, i as int) =~= Seq::<Seq<char>>::empty());
        assert(keys@.map_values(|s: String| s@) + Seq::<Seq<char>>::empty() =~= keys@.map_values(
            |s: String| s@,
        ));
    }
    keys
}

/// The first closing invoice marker at or after `p`, if any.
fn find_close_nfe_x(t: &Vec<char>, p: usize, pats: &Pats) -> (r: Option<(usize, String)>)
    requires
        p <= t@.len(),
        pats.wf(),
    ensures
        r is Some <==> find_close_nfe(t@, p as int) is Some,
        r is Some ==> {
            &&& find_close_nfe(t@, p as int)->Some_0.0 == r->Some_0.0 as int
            &&& find_close_nfe(t@, p as int)->Some_0.1 == r->Some_0.1@
            &&& p < r->Some_0.0 <= t@.len()
        },
{
    let mut q = p;
    while q < t.len()
        invariant
            p <= q <= t@.len(),
            pats.wf(),
            find_close_nfe(t@, p as int) == find_close_nfe(t@, q as int),
        decreases t@.len() - q,
    {
        if q + 1 < t.len() && t[q] == '<' && t[q + 1] == '/' {
            let j = word_end_x(t, q + 2);
            if j < t.len() && t[j] == '>' && has_needle_x(t, q + 2, j, &pats.nfe) {
                let closing_chars = sub_chars(t, q + 2, j);
                let closing = chars_to_string(&closing_chars);
                proof {
                    assert(close_nfe_at(t@, q as int) == Some(
                        (j + 1 as int, t@.subrange(q + 2 as int, j as int)),
                    ));
                }
                return Some((j + 1, closing));
            }
        }
        proof {
            assert(close_nfe_at(t@, q as int) is None);
            assert(find_close_nfe(t@, q as int) == find_close_nfe(t@, q + 1 as int));
        }
        q += 1;
    }
    proof {
        assert(find_close_nfe(t@, q as int) is None);
    }
    None
}

/// The invoice-key occurrence starting exactly at `i`, if any.
fn nfe_match_at_x(t: &Vec<char>, i: usize, pats: &Pats) -> (r: Option<(usize, NfeMatch)>)
    requires
        i < t@.len(),
        pats.wf(),
    ensures
        r is Some <==> nfe_match_at(t@, i as int) is Some,
        r is Some ==> {
            &&& nfe_match_at(t@, i as int)->Some_0.0 == r->Some_0.0 as int
            &&& nfe_match_at(t@, i as int)->Some_0.1 == r->Some_0.1.triple()
            &&& i < r->Some_0.0 <= t@.len()
        },
{
    let n = t.len();
    if t[i] != '<' {
        return None;
    }
    let j = word_end_x(t, i + 1);
    if j >= n {
        return None;
    }
    if t[j] != '>' {
        return None;
    }
    if !has_needle_x(t, i + 1, j, &pats.nfe) {
        return None;
    }
    let origin_chars = sub_chars(t, i + 1, j);
    let origin = chars_to_string(&origin_chars);
    let p0 = j + 1;
    let p1 = if lit_at_x(t, p0, &pats.chave_open) {
        p0 + 7
    } else {
        p0
    };
    proof {
        assert(p1 as int == skip_open_chave(t@, p0 as int));
    }
    if t.len() - p1 < 44 {
        return None;
    }
    if !all_digits_x(t, p1, p1 + 44) {
        return None;
    }
    let d = p1 + 44;
    let p2 = if lit_at_x(t, d, &pats.chave_close) {
        d + 8
    } else {
        d
    };
    proof {
        assert(p2 as int == skip_close_chave(t@, d as int));
    }
    match find_close_nfe_x(t, p2, pats) {
        Some((e, closing)) => {
            let key_chars = sub_chars(t, p1, d);
            let key = chars_to_string(&key_chars);
            Some((e, NfeMatch { origin, key, closing }))
        },
        None => None,
    }
}

/// Scans the whole text for invoice-key occurrences.
pub fn scan_nfe_x(t: &Vec<char>, pats: &Pats) -> (ms: Vec<NfeMatch>)
    requires
        pats.wf(),
    ensures
        ms@.map_values(|m: NfeMatch| m.triple()) == scan_nfe(t@, 0),
{
    let mut ms: Vec<NfeMatch> = Vec::new();
    let mut i: usize = 0;
    proof {
        assert(ms@.map_values(|m: NfeMatch| m.triple()) =~= Seq::<
            (Seq<char>, Seq<char>, Seq<char>),
        >::empty());
    }
    while i < t.len()
        invariant
            i <= t@.len(),
            pats.wf(),
            scan_nfe(t@, 0) == ms@.map_values(|m: NfeMatch| m.triple()) + scan_nfe(t@, i as int),
        decreases t@.len() - i,
    {
        let r = nfe_match_at_x(t, i, pats);
        match r {
            Some((e, m)) => {
                proof {
                    let old_map = ms@.map_values(|m: NfeMatch| m.triple());
                    assert(scan_nfe(t@, i as int) == seq![m.triple()] + scan_nfe(t@, e as int));
                    assert(ms@.push(m).map_values(|m: NfeMatch| m.triple()) =~= old_map.push(m.triple()));
                    assert(old_map + (seq![m.triple()] + scan_nfe(t@, e as int)) =~= old_map.push(
                        m.triple(),
                    ) + scan_nfe(t@, e as int));
                }
                ms.push(m);
                i = e;
            },
            None => {
                proof {
                    assert(scan_nfe(t@, i as int) == scan_nfe(t@, i + 1 as int));
                }
                i += 1;
            },
        }
    }
    proof {
        assert(scan_nfe(t@, i as int) =~= Seq::<(Seq<char>, Seq<char>, Seq<char>)>::empty());
        assert(ms@.map_values(|m: NfeMatch| m.triple()) + Seq::<
            (Seq<char>, Seq<char>, Seq<char>),
        >::empty() =~= ms@.map_values(|m: NfeMatch| m.triple()));
    }
    ms
}

} // verus!
