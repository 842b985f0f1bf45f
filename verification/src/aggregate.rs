use vstd::prelude::*;
use crate::chars::{lex_lt, str_lt, lemma_lex_lt_irrefl, lemma_lex_lt_connected, lemma_lex_lt_trans};

verus! {

// ---------------------------------------------------------------------------
// Data model.
//
// A per-document result is a set of transport ("CTe") keys and a mapping
// from each invoice ("NFe") key to the set of origin markers it appeared
// under. The aggregated map folds many per-document results into one
// mapping: transport key -> invoice key -> set of origins. All executable
// structures are strictly sorted vectors, so equal mathematical maps have
// equal representations and aggregation is reproducible.
// ---------------------------------------------------------------------------

#[derive(Debug, Clone, PartialEq, Eq)]
pub struct NfeEntry {
    /// A 44-digit invoice key.
    pub key: String,
    /// The origin markers this invoice key was found under, strictly sorted.
    pub origins: Vec<String>,
}

#[derive(Debug, Clone, PartialEq, Eq)]
pub struct CteEntry {
    /// A 44-digit transport key.
    pub key: String,
    /// The invoice keys referenced under this transport key, strictly sorted.
    pub nfes: Vec<NfeEntry>,
}

/// The aggregated mapping: transport key -> invoice key -> origin markers,
/// with every level strictly sorted in lexicographic order.
#[derive(Debug, Clone, PartialEq, Eq)]
pub struct AggMap {
    pub entries: Vec<CteEntry>,
}

/// What one document contributes: its transport keys and its invoice-key ->
/// origins mapping.
#[derive(Debug, Clone, PartialEq, Eq)]
pub struct PerDocResult {
    pub ctes: Vec<String>,
    pub nfes: Vec<NfeEntry>,
}

/// The mathematical view of an origin set.
pub type OriginSet = Set<Seq<char>>;

/// The mathematical view of an invoice-key -> origins mapping.
pub type NfeView = Map<Seq<char>, Set<Seq<char>>>;

/// The mathematical view of the aggregated mapping.
pub type AggView = Map<Seq<char>, Map<Seq<char>, Set<Seq<char>>>>;

/// The mathematical view of a per-document result.
pub type DocView = (Set<Seq<char>>, Map<Seq<char>, Set<Seq<char>>>);

// ---------------------------------------------------------------------------
// Views.
// ---------------------------------------------------------------------------

/// The set of character sequences a string vector holds.
pub open spec fn str_set(v: Seq<String>) -> Set<Seq<char>> {
    Set::new(|k: Seq<char>| exists|i: int| 0 <= i < v.len() && v[i]@ == k)
}

pub open spec fn nfe_has_key(ns: Seq<NfeEntry>, k: Seq<char>) -> bool {
    exists|i: int| 0 <= i < ns.len() && ns[i].key@ == k
}

pub open spec fn nfe_entry(ns: Seq<NfeEntry>, k: Seq<char>) -> NfeEntry {
    ns[choose|i: int| 0 <= i < ns.len() && ns[i].key@ == k]
}

/// The invoice-key -> origins map a vector of entries represents.
pub open spec fn nfe_map(ns: Seq<NfeEntry>) -> NfeView {
    Map::new(
        |k: Seq<char>| nfe_has_key(ns, k),
        |k: Seq<char>| str_set(nfe_entry(ns, k).origins@),
    )
}

pub open spec fn agg_has_key(es: Seq<CteEntry>, k: Seq<char>) -> bool {
    exists|i: int| 0 <= i < es.len() && es[i].key@ == k
}

pub open spec fn agg_entry(es: Seq<CteEntry>, k: Seq<char>) -> CteEntry {
    es[choose|i: int| 0 <= i < es.len() && es[i].key@ == k]
}

pub open spec fn agg_map_of(es: Seq<CteEntry>) -> AggView {
    Map::new(
        |k: Seq<char>| agg_has_key(es, k),
        |k: Seq<char>| nfe_map(agg_entry(es, k).nfes@),
    )
}

impl View for AggMap {
    type V = AggView;

    open spec fn view(&self) -> AggView {
        agg_map_of(self.entries@)
    }
}

// ---------------------------------------------------------------------------
// Well-formedness: strict lexicographic sortedness at every level.
// ---------------------------------------------------------------------------

pub open spec fn sorted_strs(v: Seq<String>) -> bool {
    forall|i: int, j: int| 0 <= i < j < v.len() ==> lex_lt(v[i]@, v[j]@)
}

pub open spec fn wf_nfes(ns: Seq<NfeEntry>) -> bool {
    &&& forall|i: int, j: int| 0 <= i < j < ns.len() ==> lex_lt(ns[i].key@, ns[j].key@)
    &&& forall|i: int|
        0 <= i < ns.len() ==> sorted_strs(#[trigger] ns[i].origins@) && ns[i].origins@.len() > 0
}

impl AggMap {
    pub open spec fn wf(self) -> bool {
        &&& forall|i: int, j: int|
            0 <= i < j < self.entries@.len() ==> lex_lt(
                self.entries@[i].key@,
                self.entries@[j].key@,
            )
        &&& forall|i: int|
            0 <= i < self.entries@.len() ==> wf_nfes(#[trigger] self.entries@[i].nfes@)
                && self.entries@[i].nfes@.len() > 0
    }
}

impl PerDocResult {
    pub open spec fn wf(self) -> bool {
        sorted_strs(self.ctes@) && wf_nfes(self.nfes@)
    }

    /// The mathematical view of this result.
    pub open spec fn dv(self) -> DocView {
        (str_set(self.ctes@), nfe_map(self.nfes@))
    }
}

/// A degenerate document view: no transport keys or no invoice keys.
pub open spec fn degenerate(d: DocView) -> bool {
    d.0.is_empty() || d.1.dom().is_empty()
}

// ---------------------------------------------------------------------------
// The combine operation, as mathematics: union of unions.
// ---------------------------------------------------------------------------

/// Union of two invoice-key maps, uniting origin sets on common keys.
pub open spec fn nmap_union(a: NfeView, b: NfeView) -> NfeView {
    Map::new(
        |k: Seq<char>| a.dom().contains(k) || b.dom().contains(k),
        |k: Seq<char>|
            if a.dom().contains(k) && b.dom().contains(k) {
                a[k].union(b[k])
            } else if a.dom().contains(k) {
                a[k]
            } else {
                b[k]
            },
    )
}

/// Union of two aggregated maps, uniting invoice-key maps on common keys.
pub open spec fn agg_union(a: AggView, b: AggView) -> AggView {
    Map::new(
        |k: Seq<char>| a.dom().contains(k) || b.dom().contains(k),
        |k: Seq<char>|
            if a.dom().contains(k) && b.dom().contains(k) {
                nmap_union(a[k], b[k])
            } else if a.dom().contains(k) {
                a[k]
            } else {
                b[k]
            },
    )
}

/// What one document adds to the aggregate: every transport key it holds is
/// mapped to its whole invoice-key map; a degenerate document adds nothing.
pub open spec fn contribution(d: DocView) -> AggView {
    if degenerate(d) {
        Map::empty()
    } else {
        Map::new(|c: Seq<char>| d.0.contains(c), |c: Seq<char>| d.1)
    }
}

// ---------------------------------------------------------------------------
// The aggregate of a sequence of document views, defined pointwise, so that
// it visibly depends on nothing but which documents are present.
// ---------------------------------------------------------------------------

pub open spec fn doc_has_cte(rs: Seq<DocView>, c: Seq<char>) -> bool {
    exists|i: int| 0 <= i < rs.len() && !degenerate(rs[i]) && rs[i].0.contains(c)
}

pub open spec fn doc_has_pair(rs: Seq<DocView>, c: Seq<char>, n: Seq<char>) -> bool {
    exists|i: int|
        0 <= i < rs.len() && !degenerate(rs[i]) && rs[i].0.contains(c) && rs[i].1.dom().contains(n)
}

pub open spec fn pair_origins(rs: Seq<DocView>, c: Seq<char>, n: Seq<char>) -> OriginSet {
    Set::new(
        |o: Seq<char>|
            exists|i: int|
                0 <= i < rs.len() && !degenerate(rs[i]) && rs[i].0.contains(c)
                    && rs[i].1.dom().contains(n) && rs[i].1[n].contains(o),
    )
}

/// The aggregate of a sequence of per-document views.
pub open spec fn agg_of(rs: Seq<DocView>) -> AggView {
    Map::new(
        |c: Seq<char>| doc_has_cte(rs, c),
        |c: Seq<char>|
            Map::new(|n: Seq<char>| doc_has_pair(rs, c, n), |n: Seq<char>| pair_origins(rs, c, n)),
    )
}

// ---------------------------------------------------------------------------
// Laws of the combine operation.
// ---------------------------------------------------------------------------

/// The aggregate of no documents is the empty mapping.
pub proof fn lemma_agg_of_empty()
    ensures
        agg_of(Seq::<DocView>::empty()) == Map::<Seq<char>, NfeView>::empty(),
{
    assert(agg_of(Seq::<DocView>::empty()) =~= Map::<Seq<char>, NfeView>::empty());
}

/// Appending one document to a batch folds its contribution in by union.
pub proof fn lemma_agg_of_push(rs: Seq<DocView>, d: DocView)
    ensures
        agg_of(rs.push(d)) == agg_union(agg_of(rs), contribution(d)),
{
    let l = agg_of(rs.push(d));
    let r = agg_union(agg_of(rs), contribution(d));
    assert forall|c: Seq<char>| l.dom().contains(c) implies r.dom().contains(c) by {
        let i = choose|i: int|
            0 <= i < rs.push(d).len() && !degenerate(rs.push(d)[i]) && rs.push(d)[i].0.contains(c);
        if i < rs.len() {
            assert(rs[i] == rs.push(d)[i]);
            assert(doc_has_cte(rs, c));
        } else {
            assert(rs.push(d)[i] == d);
            assert(contribution(d).dom().contains(c));
        }
    }
    assert forall|c: Seq<char>| r.dom().contains(c) implies l.dom().contains(c) by {
        if agg_of(rs).dom().contains(c) {
            let i = choose|i: int| 0 <= i < rs.len() && !degenerate(rs[i]) && rs[i].0.contains(c);
            assert(rs.push(d)[i] == rs[i]);
            assert(doc_has_cte(rs.push(d), c));
        } else {
            assert(!degenerate(d) && d.0.contains(c));
            assert(rs.push(d)[rs.len() as int] == d);
            assert(doc_has_cte(rs.push(d), c));
        }
    }
    assert forall|c: Seq<char>| l.dom().contains(c) implies l[c] =~= r[c] by {
        let ln = l[c];
        let rn = r[c];
        assert forall|n: Seq<char>| ln.dom().contains(n) implies rn.dom().contains(n) by {
            let i = choose|i: int|
                0 <= i < rs.push(d).len() && !degenerate(rs.push(d)[i]) && rs.push(d)[i].0.contains(
                    c,
                ) && rs.push(d)[i].1.dom().contains(n);
            if i < rs.len() {
                assert(rs[i] == rs.push(d)[i]);
                assert(doc_has_pair(rs, c, n));
                assert(doc_has_cte(rs, c));
            } else {
                assert(rs.push(d)[i] == d);
                assert(contribution(d).dom().contains(c));
                assert(contribution(d)[c].dom().contains(n));
            }
        }
        assert forall|n: Seq<char>| rn.dom().contains(n) implies ln.dom().contains(n) by {
            if agg_of(rs).dom().contains(c) && agg_of(rs)[c].dom().contains(n) {
                let i = choose|i: int|
                    0 <= i < rs.len() && !degenerate(rs[i]) && rs[i].0.contains(c)
                        && rs[i].1.dom().contains(n);
                assert(rs.push(d)[i] == rs[i]);
                assert(doc_has_pair(rs.push(d), c, n));
            } else {
                assert(!degenerate(d) && d.0.contains(c) && d.1.dom().contains(n));
                assert(rs.push(d)[rs.len() as int] == d);
                assert(doc_has_pair(rs.push(d), c, n));
            }
        }
        assert forall|n: Seq<char>| ln.dom().contains(n) implies ln[n] =~= rn[n] by {
            let lo = ln[n];
            let ro = rn[n];
            assert forall|o: Seq<char>| lo.contains(o) implies ro.contains(o) by {
                let i = choose|i: int|
                    0 <= i < rs.push(d).len() && !degenerate(rs.push(d)[i]) && rs.push(
                        d,
                    )[i].0.contains(c) && rs.push(d)[i].1.dom().contains(n) && rs.push(
                        d,
                    )[i].1[n].contains(o);
                if i < rs.len() {
                    assert(rs[i] == rs.push(d)[i]);
                    assert(pair_origins(rs, c, n).contains(o));
                    assert(doc_has_pair(rs, c, n));
                    assert(doc_has_cte(rs, c));
                } else {
                    assert(rs.push(d)[i] == d);
                    assert(contribution(d).dom().contains(c));
                    assert(contribution(d)[c].dom().contains(n));
                    assert(contribution(d)[c][n].contains(o));
                }
            }
            assert forall|o: Seq<char>| ro.contains(o) implies lo.contains(o) by {
                if agg_of(rs).dom().contains(c) && agg_of(rs)[c].dom().contains(n) && agg_of(
                    rs,
                )[c][n].contains(o) {
                    let i = choose|i: int|
                        0 <= i < rs.len() && !degenerate(rs[i]) && rs[i].0.contains(c)
                            && rs[i].1.dom().contains(n) && rs[i].1[n].contains(o);
                    assert(rs.push(d)[i] == rs[i]);
                    assert(pair_origins(rs.push(d), c, n).contains(o));
                } else {
                    assert(!degenerate(d) && d.0.contains(c) && d.1.dom().contains(n)
                        && d.1[n].contains(o));
                    assert(rs.push(d)[rs.len() as int] == d);
                    assert(pair_origins(rs.push(d), c, n).contains(o));
                }
            }
        }
        assert(ln =~= rn);
    }
    assert(l =~= r);
}

/// Aggregation is order-independent: two batches holding the same documents,
/// in any order, aggregate to the same mapping.
pub proof fn lemma_agg_order_independent(a: Seq<DocView>, b: Seq<DocView>)
    requires
        a.to_multiset() == b.to_multiset(),
    ensures
        agg_of(a) == agg_of(b),
{
    broadcast use vstd::seq_lib::group_to_multiset_ensures;

    assert forall|x: DocView| a.contains(x) implies b.contains(x) by {
        assert(a.to_multiset().count(x) > 0);
    }
    assert forall|x: DocView| b.contains(x) implies a.contains(x) by {
        assert(b.to_multiset().count(x) > 0);
    }
    lemma_agg_same_elements(a, b);
}

/// Aggregation depends only on which documents are present.
pub proof fn lemma_agg_same_elements(a: Seq<DocView>, b: Seq<DocView>)
    requires
        forall|x: DocView| a.contains(x) <==> b.contains(x),
    ensures
        agg_of(a) == agg_of(b),
{
    assert forall|c: Seq<char>| doc_has_cte(a, c) == doc_has_cte(b, c) by {
        if doc_has_cte(a, c) {
            lemma_transfer_cte(a, b, c);
        }
        if doc_has_cte(b, c) {
            lemma_transfer_cte(b, a, c);
        }
    }
    assert forall|c: Seq<char>, n: Seq<char>| doc_has_pair(a, c, n) == doc_has_pair(b, c, n) by {
        if doc_has_pair(a, c, n) {
            lemma_transfer_pair(a, b, c, n);
        }
        if doc_has_pair(b, c, n) {
            lemma_transfer_pair(b, a, c, n);
        }
    }
    assert forall|c: Seq<char>, n: Seq<char>| pair_origins(a, c, n) == pair_origins(b, c, n) by {
        assert forall|o: Seq<char>|
            pair_origins(a, c, n).contains(o) == pair_origins(b, c, n).contains(o) by {
            if pair_origins(a, c, n).contains(o) {
                lemma_transfer_origin(a, b, c, n, o);
            }
            if pair_origins(b, c, n).contains(o) {
                lemma_transfer_origin(b, a, c, n, o);
            }
        }
        assert(pair_origins(a, c, n) =~= pair_origins(b, c, n));
    }
    assert forall|c: Seq<char>| #[trigger] agg_of(a).dom().contains(c) implies agg_of(a)[c] =~= agg_of(
        b,
    )[c] by {
        assert(agg_of(a)[c] =~= agg_of(b)[c]);
    }
    assert(agg_of(a) =~= agg_of(b));
}

proof fn lemma_transfer_cte(a: Seq<DocView>, b: Seq<DocView>, c: Seq<char>)
    requires
        forall|x: DocView| a.contains(x) ==> b.contains(x),
        doc_has_cte(a, c),
    ensures
        doc_has_cte(b, c),
{
    let i = choose|i: int| 0 <= i < a.len() && !degenerate(a[i]) && a[i].0.contains(c);
    assert(a.contains(a[i]));
    let j = choose|j: int| 0 <= j < b.len() && b[j] == a[i];
    assert(!degenerate(b[j]) && b[j].0.contains(c));
}

proof fn lemma_transfer_pair(a: Seq<DocView>, b: Seq<DocView>, c: Seq<char>, n: Seq<char>)
    requires
        forall|x: DocView| a.contains(x) ==> b.contains(x),
        doc_has_pair(a, c, n),
    ensures
        doc_has_pair(b, c, n),
{
    let i = choose|i: int|
        0 <= i < a.len() && !degenerate(a[i]) && a[i].0.contains(c) && a[i].1.dom().contains(n);
    assert(a.contains(a[i]));
    let j = choose|j: int| 0 <= j < b.len() && b[j] == a[i];
    assert(!degenerate(b[j]) && b[j].0.contains(c) && b[j].1.dom().contains(n));
}

proof fn lemma_transfer_origin(
    a: Seq<DocView>,
    b: Seq<DocView>,
    c: Seq<char>,
    n: Seq<char>,
    o: Seq<char>,
)
    requires
        forall|x: DocView| a.contains(x) ==> b.contains(x),
        pair_origins(a, c, n).contains(o),
    ensures
        pair_origins(b, c, n).contains(o),
{
    let i = choose|i: int|
        0 <= i < a.len() && !degenerate(a[i]) && a[i].0.contains(c) && a[i].1.dom().contains(n)
            && a[i].1[n].contains(o);
    assert(a.contains(a[i]));
    let j = choose|j: int| 0 <= j < b.len() && b[j] == a[i];
    assert(!degenerate(b[j]) && b[j].0.contains(c) && b[j].1.dom().contains(n) && b[j].1[n].contains(
        o,
    ));
}

/// Aggregation is partition-independent: aggregating two batches separately
/// and uniting the results equals aggregating their concatenation.
pub proof fn lemma_agg_partition_independent(a: Seq<DocView>, b: Seq<DocView>)
    ensures
        agg_of(a + b) == agg_union(agg_of(a), agg_of(b)),
    decreases b.len(),
{
    if b.len() == 0 {
        assert(a + b =~= a);
        lemma_agg_union_empty_right(agg_of(a));
        assert(agg_of(b) =~= Map::<Seq<char>, NfeView>::empty());
        assert(agg_of(b) == agg_of(Seq::<DocView>::empty())) by {
            assert(agg_of(b) =~= agg_of(Seq::<DocView>::empty()));
        }
        lemma_agg_of_empty();
    } else {
        let b0 = b.drop_last();
        let d = b.last();
        lemma_agg_partition_independent(a, b0);
        assert(b0.push(d) =~= b);
        assert(a + b =~= (a + b0).push(d));
        lemma_agg_of_push(a + b0, d);
        lemma_agg_of_push(b0, d);
        lemma_agg_union_assoc(agg_of(a), agg_of(b0), contribution(d));
    }
}

/// The concatenation of a sequence of batches, in order.
pub open spec fn concat_batches(bs: Seq<Seq<DocView>>) -> Seq<DocView>
    decreases bs.len(),
{
    if bs.len() == 0 {
        Seq::empty()
    } else {
        concat_batches(bs.drop_last()) + bs.last()
    }
}

/// Each batch's own aggregate, united left to right.
pub open spec fn union_of_batches(bs: Seq<Seq<DocView>>) -> AggView
    decreases bs.len(),
{
    if bs.len() == 0 {
        Map::<Seq<char>, NfeView>::empty()
    } else {
        agg_union(union_of_batches(bs.drop_last()), agg_of(bs.last()))
    }
}

/// Partition independence for any number of batches: splitting the
/// documents into arbitrarily many batches, aggregating each batch on its
/// own, and uniting the batch results yields exactly the aggregate of the
/// whole sequence. Since the union is associative and commutative, every
/// recombination order gives this same mapping.
pub proof fn lemma_agg_partition_any(bs: Seq<Seq<DocView>>)
    ensures
        agg_of(concat_batches(bs)) == union_of_batches(bs),
    decreases bs.len(),
{
    if bs.len() == 0 {
        lemma_agg_of_empty();
    } else {
        lemma_agg_partition_any(bs.drop_last());
        lemma_agg_partition_independent(concat_batches(bs.drop_last()), bs.last());
    }
}

/// The empty mapping is a unit of the union.
pub proof fn lemma_agg_union_empty_right(a: AggView)
    ensures
        agg_union(a, Map::<Seq<char>, NfeView>::empty()) == a,
{
    assert(agg_union(a, Map::<Seq<char>, NfeView>::empty()) =~= a);
}

pub proof fn lemma_agg_union_empty_left(a: AggView)
    ensures
        agg_union(Map::<Seq<char>, NfeView>::empty(), a) == a,
{
    assert(agg_union(Map::<Seq<char>, NfeView>::empty(), a) =~= a);
}

/// Union of invoice-key maps is associative.
pub proof fn lemma_nmap_union_assoc(a: NfeView, b: NfeView, c: NfeView)
    ensures
        nmap_union(nmap_union(a, b), c) == nmap_union(a, nmap_union(b, c)),
{
    let l = nmap_union(nmap_union(a, b), c);
    let r = nmap_union(a, nmap_union(b, c));
    assert forall|k: Seq<char>| l.dom().contains(k) implies l[k] =~= r[k] by {}
    assert(l =~= r);
}

/// Union of aggregated maps is associative.
pub proof fn lemma_agg_union_assoc(a: AggView, b: AggView, c: AggView)
    ensures
        agg_union(agg_union(a, b), c) == agg_union(a, agg_union(b, c)),
{
    let l = agg_union(agg_union(a, b), c);
    let r = agg_union(a, agg_union(b, c));
    assert forall|k: Seq<char>| l.dom().contains(k) implies l[k] =~= r[k] by {
        if a.dom().contains(k) && b.dom().contains(k) && c.dom().contains(k) {
            lemma_nmap_union_assoc(a[k], b[k], c[k]);
        }
    }
    assert(l =~= r);
}

/// Union of invoice-key maps is commutative.
pub proof fn lemma_nmap_union_comm(a: NfeView, b: NfeView)
    ensures
        nmap_union(a, b) == nmap_union(b, a),
{
    let l = nmap_union(a, b);
    let r = nmap_union(b, a);
    assert forall|k: Seq<char>| l.dom().contains(k) implies l[k] =~= r[k] by {}
    assert(l =~= r);
}

/// Union of aggregated maps is commutative.
pub proof fn lemma_agg_union_comm(a: AggView, b: AggView)
    ensures
        agg_union(a, b) == agg_union(b, a),
{
    let l = agg_union(a, b);
    let r = agg_union(b, a);
    assert forall|k: Seq<char>| l.dom().contains(k) implies l[k] =~= r[k] by {
        if a.dom().contains(k) && b.dom().contains(k) {
            lemma_nmap_union_comm(a[k], b[k]);
        }
    }
    assert(l =~= r);
}

/// Merging the same invoice-key map twice changes nothing more.
pub proof fn lemma_nmap_union_idem(a: NfeView, b: NfeView)
    ensures
        nmap_union(nmap_union(a, b), b) == nmap_union(a, b),
{
    let l = nmap_union(nmap_union(a, b), b);
    let r = nmap_union(a, b);
    assert forall|k: Seq<char>| l.dom().contains(k) implies l[k] =~= r[k] by {}
    assert(l =~= r);
}

/// Idempotence of combine: merging one document's contribution into an
/// accumulator twice yields the same mapping as merging it once.
pub proof fn lemma_combine_idempotent(m: AggView, d: DocView)
    ensures
        agg_union(agg_union(m, contribution(d)), contribution(d)) == agg_union(m, contribution(d)),
{
    lemma_agg_union_idem(m, contribution(d));
}

/// Merging the same aggregated map twice changes nothing more.
pub proof fn lemma_agg_union_idem(a: AggView, b: AggView)
    ensures
        agg_union(agg_union(a, b), b) == agg_union(a, b),
{
    let l = agg_union(agg_union(a, b), b);
    let r = agg_union(a, b);
    assert forall|k: Seq<char>| l.dom().contains(k) implies l[k] =~= r[k] by {
        if a.dom().contains(k) && b.dom().contains(k) {
            lemma_nmap_union_idem(a[k], b[k]);
        } else if b.dom().contains(k) {
            assert(nmap_union(b[k], b[k]) =~~= b[k]);
        }
    }
    assert(l =~= r);
}

/// A degenerate document contributes nothing to the aggregate.
pub proof fn lemma_degenerate_contributes_nothing(m: AggView, d: DocView)
    requires
        degenerate(d),
    ensures
        contribution(d) == Map::<Seq<char>, NfeView>::empty(),
        agg_union(m, contribution(d)) == m,
{
    lemma_agg_union_empty_right(m);
}

// ---------------------------------------------------------------------------
// Canonical representation: the strictly sorted vectors are determined by
// the mathematical maps they hold, so the order-independence of the views
// carries over to the bytes a run produces.
// ---------------------------------------------------------------------------

/// The character sequences of a string vector, in order.
pub open spec fn rep_strs(v: Seq<String>) -> Seq<Seq<char>> {
    v.map_values(|s: String| s@)
}

/// The full contents of an invoice-entry vector, in order.
pub open spec fn rep_nfes(ns: Seq<NfeEntry>) -> Seq<(Seq<char>, Seq<Seq<char>>)> {
    ns.map_values(|e: NfeEntry| (e.key@, rep_strs(e.origins@)))
}

/// The full contents of an aggregated map, in order.
pub open spec fn rep_agg(m: AggMap) -> Seq<(Seq<char>, Seq<(Seq<char>, Seq<Seq<char>>)>)> {
    m.entries@.map_values(|e: CteEntry| (e.key@, rep_nfes(e.nfes@)))
}

/// A strictly sorted string vector is determined by the set it holds.
proof fn lemma_sorted_strs_canonical(u: Seq<String>, v: Seq<String>)
    requires
        sorted_strs(u),
        sorted_strs(v),
        str_set(u) == str_set(v),
    ensures
        rep_strs(u) == rep_strs(v),
    decreases u.len(),
{
    if u.len() == 0 {
        if v.len() > 0 {
            assert(str_set(v).contains(v[0]@));
            assert(false);
        }
        assert(rep_strs(u) =~= rep_strs(v));
    } else if v.len() == 0 {
        assert(str_set(u).contains(u[0]@));
        assert(false);
    } else {
        assert(str_set(u).contains(u[0]@));
        let j = choose|j: int| 0 <= j < v.len() && v[j]@ == u[0]@;
        assert(str_set(v).contains(v[0]@));
        let k = choose|k: int| 0 <= k < u.len() && u[k]@ == v[0]@;
        if j > 0 && k > 0 {
            assert(lex_lt(v[0]@, v[j]@));
            assert(lex_lt(u[0]@, u[k]@));
            lemma_lex_lt_trans(u[0]@, v[0]@, u[0]@);
            lemma_lex_lt_irrefl(u[0]@);
        } else if j > 0 {
            assert(lex_lt(v[0]@, v[j]@));
            lemma_lex_lt_irrefl(v[0]@);
        } else if k > 0 {
            assert(lex_lt(u[0]@, u[k]@));
            lemma_lex_lt_irrefl(u[0]@);
        }
        assert(u[0]@ == v[0]@);
        let ut = u.drop_first();
        let vt = v.drop_first();
        assert forall|p: int, q: int| 0 <= p < q < ut.len() implies lex_lt(ut[p]@, ut[q]@) by {
            assert(ut[p] == u[p + 1] && ut[q] == u[q + 1]);
        }
        assert forall|p: int, q: int| 0 <= p < q < vt.len() implies lex_lt(vt[p]@, vt[q]@) by {
            assert(vt[p] == v[p + 1] && vt[q] == v[q + 1]);
        }
        assert forall|x: Seq<char>| str_set(ut).contains(x) implies str_set(vt).contains(x) by {
            let p = choose|p: int| 0 <= p < ut.len() && ut[p]@ == x;
            assert(u[p + 1]@ == x);
            assert(lex_lt(u[0]@, x));
            assert(str_set(v).contains(x));
            let q = choose|q: int| 0 <= q < v.len() && v[q]@ == x;
            if q == 0 {
                lemma_lex_lt_irrefl(u[0]@);
            }
            assert(vt[q - 1]@ == x);
        }
        assert forall|x: Seq<char>| str_set(vt).contains(x) implies str_set(ut).contains(x) by {
            let p = choose|p: int| 0 <= p < vt.len() && vt[p]@ == x;
            assert(v[p + 1]@ == x);
            assert(lex_lt(v[0]@, x));
            assert(str_set(u).contains(x));
            let q = choose|q: int| 0 <= q < u.len() && u[q]@ == x;
            if q == 0 {
                lemma_lex_lt_irrefl(v[0]@);
            }
            assert(ut[q - 1]@ == x);
        }
        assert(str_set(ut) =~= str_set(vt));
        lemma_sorted_strs_canonical(ut, vt);
        assert(rep_strs(ut).len() == rep_strs(vt).len());
        assert(u.len() == v.len());
        assert forall|i: int| 0 <= i < u.len() implies rep_strs(u)[i] == rep_strs(v)[i] by {
            if i > 0 {
                assert(rep_strs(ut)[i - 1] == rep_strs(vt)[i - 1]);
                assert(ut[i - 1] == u[i]);
                assert(vt[i - 1] == v[i]);
            }
        }
        assert(rep_strs(u) =~= rep_strs(v));
    }
}

/// A well-formed invoice-entry vector is determined by the map it holds.
proof fn lemma_nfes_canonical(u: Seq<NfeEntry>, v: Seq<NfeEntry>)
    requires
        wf_nfes(u),
        wf_nfes(v),
        nfe_map(u) == nfe_map(v),
    ensures
        rep_nfes(u) == rep_nfes(v),
{
    let ku = u.map_values(|e: NfeEntry| e.key);
    let kv = v.map_values(|e: NfeEntry| e.key);
    assert forall|p: int, q: int| 0 <= p < q < ku.len() implies lex_lt(ku[p]@, ku[q]@) by {}
    assert forall|p: int, q: int| 0 <= p < q < kv.len() implies lex_lt(kv[p]@, kv[q]@) by {}
    assert forall|x: Seq<char>| str_set(ku).contains(x) implies str_set(kv).contains(x) by {
        let p = choose|p: int| 0 <= p < ku.len() && ku[p]@ == x;
        assert(u[p].key@ == x);
        assert(nfe_map(u).dom().contains(x));
        let q = choose|q: int| 0 <= q < v.len() && v[q].key@ == x;
        assert(kv[q]@ == x);
    }
    assert forall|x: Seq<char>| str_set(kv).contains(x) implies str_set(ku).contains(x) by {
        let p = choose|p: int| 0 <= p < kv.len() && kv[p]@ == x;
        assert(v[p].key@ == x);
        assert(nfe_map(v).dom().contains(x));
        let q = choose|q: int| 0 <= q < u.len() && u[q].key@ == x;
        assert(ku[q]@ == x);
    }
    assert(str_set(ku) =~= str_set(kv));
    lemma_sorted_strs_canonical(ku, kv);
    assert(rep_strs(ku).len() == rep_strs(kv).len());
    assert(u.len() == v.len());
    assert forall|i: int| 0 <= i < u.len() implies rep_nfes(u)[i] == rep_nfes(v)[i] by {
        assert(rep_strs(ku)[i] == rep_strs(kv)[i]);
        assert(u[i].key@ == v[i].key@);
        lemma_nfe_map_index(u, i);
        lemma_nfe_map_index(v, i);
        assert(str_set(u[i].origins@) == str_set(v[i].origins@));
        lemma_sorted_strs_canonical(u[i].origins@, v[i].origins@);
    }
    assert(rep_nfes(u) =~= rep_nfes(v));
}

/// The aggregated map's representation is canonical: two well-formed
/// aggregates that hold the same mapping hold the very same keys and
/// origins, level by level, in the same order. Together with the
/// order-independence of `agg_of`, any two runs over the same documents
/// produce one and the same representation.
pub proof fn lemma_agg_canonical(a: AggMap, b: AggMap)
    requires
        a.wf(),
        b.wf(),
        a@ == b@,
    ensures
        rep_agg(a) == rep_agg(b),
{
    let ka = a.entries@.map_values(|e: CteEntry| e.key);
    let kb = b.entries@.map_values(|e: CteEntry| e.key);
    assert forall|p: int, q: int| 0 <= p < q < ka.len() implies lex_lt(ka[p]@, ka[q]@) by {}
    assert forall|p: int, q: int| 0 <= p < q < kb.len() implies lex_lt(kb[p]@, kb[q]@) by {}
    assert forall|x: Seq<char>| str_set(ka).contains(x) implies str_set(kb).contains(x) by {
        let p = choose|p: int| 0 <= p < ka.len() && ka[p]@ == x;
        assert(a.entries@[p].key@ == x);
        assert(a@.dom().contains(x));
        let q = choose|q: int| 0 <= q < b.entries@.len() && b.entries@[q].key@ == x;
        assert(kb[q]@ == x);
    }
    assert forall|x: Seq<char>| str_set(kb).contains(x) implies str_set(ka).contains(x) by {
        let p = choose|p: int| 0 <= p < kb.len() && kb[p]@ == x;
        assert(b.entries@[p].key@ == x);
        assert(b@.dom().contains(x));
        let q = choose|q: int| 0 <= q < a.entries@.len() && a.entries@[q].key@ == x;
        assert(ka[q]@ == x);
    }
    assert(str_set(ka) =~= str_set(kb));
    lemma_sorted_strs_canonical(ka, kb);
    assert(rep_strs(ka).len() == rep_strs(kb).len());
    assert(a.entries@.len() == b.entries@.len());
    assert forall|i: int| 0 <= i < a.entries@.len() implies rep_agg(a)[i] == rep_agg(b)[i] by {
        assert(rep_strs(ka)[i] == rep_strs(kb)[i]);
        assert(a.entries@[i].key@ == b.entries@[i].key@);
        lemma_agg_map_index(a.entries@, i);
        lemma_agg_map_index(b.entries@, i);
        assert(nfe_map(a.entries@[i].nfes@) == nfe_map(b.entries@[i].nfes@));
        lemma_nfes_canonical(a.entries@[i].nfes@, b.entries@[i].nfes@);
    }
    assert(rep_agg(a) =~= rep_agg(b));
}

// ---------------------------------------------------------------------------
// Small facts about sorted vectors and their views.
// ---------------------------------------------------------------------------

proof fn lemma_lex_neq(a: Seq<char>, b: Seq<char>)
    requires
        lex_lt(a, b),
    ensures
        a != b,
{
    if a == b {
        lemma_lex_lt_irrefl(a);
    }
}

pub proof fn lemma_str_set_push(v: Seq<String>, x: String)
    ensures
        str_set(v.push(x)) == str_set(v).insert(x@),
{
    let l = str_set(v.push(x));
    let r = str_set(v).insert(x@);
    assert forall|k: Seq<char>| l.contains(k) implies r.contains(k) by {
        let i = choose|i: int| 0 <= i < v.push(x).len() && v.push(x)[i]@ == k;
        if i < v.len() {
            assert(v[i]@ == k);
        } else {
            assert(k == x@);
        }
    }
    assert forall|k: Seq<char>| r.contains(k) implies l.contains(k) by {
        if k == x@ {
            assert(v.push(x)[v.len() as int]@ == k);
        } else {
            let i = choose|i: int| 0 <= i < v.len() && v[i]@ == k;
            assert(v.push(x)[i]@ == k);
        }
    }
    assert(l =~= r);
}

proof fn lemma_nfe_key_unique(ns: Seq<NfeEntry>, p: int, q: int)
    requires
        forall|i: int, j: int| 0 <= i < j < ns.len() ==> lex_lt(ns[i].key@, ns[j].key@),
        0 <= p < ns.len(),
        0 <= q < ns.len(),
        ns[p].key@ == ns[q].key@,
    ensures
        p == q,
{
    if p != q {
        lemma_lex_lt_irrefl(ns[p].key@);
    }
}

proof fn lemma_cte_key_unique(es: Seq<CteEntry>, p: int, q: int)
    requires
        forall|i: int, j: int| 0 <= i < j < es.len() ==> lex_lt(es[i].key@, es[j].key@),
        0 <= p < es.len(),
        0 <= q < es.len(),
        es[p].key@ == es[q].key@,
    ensures
        p == q,
{
    if p != q {
        lemma_lex_lt_irrefl(es[p].key@);
    }
}

/// Looking an entry's own key up in the map yields that entry's origins.
proof fn lemma_nfe_map_index(ns: Seq<NfeEntry>, at: int)
    requires
        forall|p: int, q: int| 0 <= p < q < ns.len() ==> lex_lt(ns[p].key@, ns[q].key@),
        0 <= at < ns.len(),
    ensures
        nfe_has_key(ns, ns[at].key@),
        nfe_map(ns).dom().contains(ns[at].key@),
        nfe_map(ns)[ns[at].key@] == str_set(ns[at].origins@),
{
    let k = ns[at].key@;
    assert(nfe_has_key(ns, k));
    assert forall|p: int| 0 <= p < ns.len() && ns[p].key@ == k implies p == at by {
        lemma_nfe_key_unique(ns, at, p);
    }
    assert(nfe_entry(ns, k) == ns[at]);
}

proof fn lemma_agg_map_index(es: Seq<CteEntry>, at: int)
    requires
        forall|p: int, q: int| 0 <= p < q < es.len() ==> lex_lt(es[p].key@, es[q].key@),
        0 <= at < es.len(),
    ensures
        agg_has_key(es, es[at].key@),
        agg_map_of(es).dom().contains(es[at].key@),
        agg_map_of(es)[es[at].key@] == nfe_map(es[at].nfes@),
{
    let k = es[at].key@;
    assert(agg_has_key(es, k));
    assert forall|p: int| 0 <= p < es.len() && es[p].key@ == k implies p == at by {
        lemma_cte_key_unique(es, at, p);
    }
    assert(agg_entry(es, k) == es[at]);
}

// ---------------------------------------------------------------------------
// Sorted string-set vectors.
// ---------------------------------------------------------------------------

/// A fresh copy of a string vector.
pub fn clone_strs(v: &Vec<String>) -> (r: Vec<String>)
    ensures
        r@ == v@,
{
    let mut r: Vec<String> = Vec::new();
    let mut i: usize = 0;
    while i < v.len()
        invariant
            i <= v@.len(),
            r@ == v@.subrange(0, i as int),
        decreases v@.len() - i,
    {
        r.push(v[i].clone());
        proof {
            assert(r@ =~= v@.subrange(0, i + 1 as int));
        }
        i += 1;
    }
    proof {
        assert(r@ =~= v@);
    }
    r
}

/// Inserts a string into a strictly sorted vector, keeping it a sorted set.
pub fn insert_str(v: &mut Vec<String>, s: &String)
    requires
        sorted_strs(old(v)@),
    ensures
        sorted_strs(final(v)@),
        str_set(final(v)@) == str_set(old(v)@).insert(s@),
        final(v)@.len() >= old(v)@.len(),
        final(v)@.len() > 0,
{
    let mut i: usize = 0;
    while i < v.len() && str_lt(v[i].as_str(), s.as_str())
        invariant
            *v == *old(v),
            i <= v@.len(),
            sorted_strs(v@),
            forall|j: int| 0 <= j < i ==> lex_lt(v@[j]@, s@),
        decreases v@.len() - i,
    {
        i += 1;
    }
    if i < v.len() && v[i].eq(s) {
        proof {
            assert(v@[i as int]@ == s@);
            assert(str_set(v@).contains(s@));
            assert(str_set(v@).insert(s@) =~= str_set(v@));
        }
        return ;
    }
    proof {
        if i < v@.len() {
            assert(!lex_lt(v@[i as int]@, s@));
            assert(v@[i as int]@ != s@);
            if !lex_lt(s@, v@[i as int]@) {
                lemma_lex_lt_connected(v@[i as int]@, s@);
            }
            assert(lex_lt(s@, v@[i as int]@));
        }
    }
    let ghost oldv = v@;
    v.insert(i, s.clone());
    proof {
        let nv = v@;
        assert(nv == oldv.insert(i as int, *s));
        assert forall|p: int, q: int| 0 <= p < q < nv.len() implies lex_lt(nv[p]@, nv[q]@) by {
            if q < i {
                assert(nv[p] == oldv[p] && nv[q] == oldv[q]);
            } else if q == i {
                assert(nv[p] == oldv[p]);
                assert(lex_lt(oldv[p]@, s@));
            } else {
                assert(nv[q] == oldv[q - 1]);
                if p < i {
                    assert(nv[p] == oldv[p]);
                    if p < q - 1 {
                        assert(lex_lt(oldv[p]@, oldv[q - 1]@));
                    } else {
                        assert(lex_lt(oldv[p]@, s@));
                        assert(lex_lt(s@, oldv[i as int]@));
                        assert(q - 1 == i);
                        lemma_lex_lt_trans(oldv[p]@, s@, oldv[i as int]@);
                    }
                } else if p == i {
                    assert(nv[p]@ == s@);
                    assert(lex_lt(s@, oldv[i as int]@));
                    if q - 1 > i {
                        lemma_lex_lt_trans(s@, oldv[i as int]@, oldv[q - 1]@);
                    }
                } else {
                    assert(nv[p] == oldv[p - 1]);
                    assert(lex_lt(oldv[p - 1]@, oldv[q - 1]@));
                }
            }
        }
        assert forall|k: Seq<char>| str_set(nv).contains(k) implies str_set(oldv).insert(
            s@,
        ).contains(k) by {
            let p = choose|p: int| 0 <= p < nv.len() && nv[p]@ == k;
            if p < i {
                assert(oldv[p]@ == k);
            } else if p == i {
                assert(k == s@);
            } else {
                assert(oldv[p - 1]@ == k);
            }
        }
        assert forall|k: Seq<char>| str_set(oldv).insert(s@).contains(k) implies str_set(
            nv,
        ).contains(k) by {
            if k == s@ {
                assert(nv[i as int]@ == k);
            } else {
                let p = choose|p: int| 0 <= p < oldv.len() && oldv[p]@ == k;
                if p < i {
                    assert(nv[p]@ == k);
                } else {
                    assert(nv[p + 1]@ == k);
                }
            }
        }
        assert(str_set(nv) =~= str_set(oldv).insert(s@));
    }
}

/// The union of two sorted string sets.
pub fn union_strs(a: &Vec<String>, b: &Vec<String>) -> (r: Vec<String>)
    requires
        sorted_strs(a@),
        sorted_strs(b@),
    ensures
        sorted_strs(r@),
        str_set(r@) == str_set(a@).union(str_set(b@)),
        r@.len() >= a@.len(),
        b@.len() > 0 ==> r@.len() > 0,
{
    let mut r = clone_strs(a);
    proof {
        assert(str_set(r@) =~= str_set(a@).union(str_set(b@.subrange(0, 0))));
    }
    let mut i: usize = 0;
    while i < b.len()
        invariant
            i <= b@.len(),
            sorted_strs(b@),
            sorted_strs(r@),
            str_set(r@) == str_set(a@).union(str_set(b@.subrange(0, i as int))),
            r@.len() >= a@.len(),
            i > 0 ==> r@.len() > 0,
        decreases b@.len() - i,
    {
        insert_str(&mut r, &b[i]);
        proof {
            assert(b@.subrange(0, i + 1 as int) =~= b@.subrange(0, i as int).push(b@[i as int]));
            lemma_str_set_push(b@.subrange(0, i as int), b@[i as int]);
            assert(str_set(a@).union(str_set(b@.subrange(0, i as int))).insert(b@[i as int]@)
                =~= str_set(a@).union(str_set(b@.subrange(0, i + 1 as int))));
        }
        i += 1;
    }
    proof {
        assert(b@.subrange(0, b@.len() as int) =~= b@);
    }
    r
}

// ---------------------------------------------------------------------------
// Sorted invoice-key maps.
// ---------------------------------------------------------------------------

/// One merge step on an invoice-key map: unite `os` into the set under `k`.
pub open spec fn nmap_merge_one(m: NfeView, k: Seq<char>, os: OriginSet) -> NfeView {
    m.insert(
        k,
        if m.dom().contains(k) {
            m[k].union(os)
        } else {
            os
        },
    )
}

proof fn lemma_nfe_map_update(ns: Seq<NfeEntry>, i: int, e: NfeEntry)
    requires
        forall|p: int, q: int| 0 <= p < q < ns.len() ==> lex_lt(ns[p].key@, ns[q].key@),
        0 <= i < ns.len(),
        e.key@ == ns[i].key@,
    ensures
        nfe_map(ns.update(i, e)) == nfe_map(ns).insert(e.key@, str_set(e.origins@)),
        forall|p: int, q: int|
            0 <= p < q < ns.update(i, e).len() ==> lex_lt(
                ns.update(i, e)[p].key@,
                ns.update(i, e)[q].key@,
            ),
{
    let ns2 = ns.update(i, e);
    assert(forall|j: int| 0 <= j < ns2.len() ==> ns2[j].key@ == ns[j].key@);
    let l = nfe_map(ns2);
    let r = nfe_map(ns).insert(e.key@, str_set(e.origins@));
    assert forall|x: Seq<char>| l.dom().contains(x) implies r.dom().contains(x) by {
        let p = choose|p: int| 0 <= p < ns2.len() && ns2[p].key@ == x;
        assert(ns[p].key@ == x);
    }
    assert forall|x: Seq<char>| r.dom().contains(x) implies l.dom().contains(x) by {
        if x == e.key@ {
            assert(ns2[i].key@ == x);
        } else {
            let p = choose|p: int| 0 <= p < ns.len() && ns[p].key@ == x;
            assert(ns2[p].key@ == x);
        }
    }
    assert forall|x: Seq<char>| l.dom().contains(x) implies l[x] == r[x] by {
        let p = choose|p: int| 0 <= p < ns2.len() && ns2[p].key@ == x;
        if x == e.key@ {
            lemma_nfe_key_unique(ns, p, i);
            assert(l[x] == str_set(ns2[i].origins@));
        } else {
            assert(p != i);
            let q = choose|q: int| 0 <= q < ns.len() && ns[q].key@ == x;
            lemma_nfe_key_unique(ns, p, q);
            assert(l[x] == str_set(ns2[p].origins@));
            assert(r[x] == str_set(ns[q].origins@));
        }
    }
    assert(l =~= r);
}

proof fn lemma_nfe_map_insert(ns: Seq<NfeEntry>, i: int, e: NfeEntry)
    requires
        forall|p: int, q: int| 0 <= p < q < ns.len() ==> lex_lt(ns[p].key@, ns[q].key@),
        0 <= i <= ns.len(),
        !nfe_has_key(ns, e.key@),
    ensures
        nfe_map(ns.insert(i, e)) == nfe_map(ns).insert(e.key@, str_set(e.origins@)),
{
    let ns2 = ns.insert(i, e);
    assert(forall|j: int| 0 <= j < i ==> ns2[j] == ns[j]);
    assert(ns2[i] == e);
    assert(forall|j: int| i < j < ns2.len() ==> ns2[j] == ns[j - 1]);
    let l = nfe_map(ns2);
    let r = nfe_map(ns).insert(e.key@, str_set(e.origins@));
    assert forall|x: Seq<char>| l.dom().contains(x) implies r.dom().contains(x) by {
        let p = choose|p: int| 0 <= p < ns2.len() && ns2[p].key@ == x;
        if p < i {
            assert(ns[p].key@ == x);
        } else if p > i {
            assert(ns[p - 1].key@ == x);
        }
    }
    assert forall|x: Seq<char>| r.dom().contains(x) implies l.dom().contains(x) by {
        if x == e.key@ {
            assert(ns2[i].key@ == x);
        } else {
            let p = choose|p: int| 0 <= p < ns.len() && ns[p].key@ == x;
            if p < i {
                assert(ns2[p].key@ == x);
            } else {
                assert(ns2[p + 1].key@ == x);
            }
        }
    }
    assert forall|x: Seq<char>| l.dom().contains(x) implies l[x] == r[x] by {
        let p = choose|p: int| 0 <= p < ns2.len() && ns2[p].key@ == x;
        if x == e.key@ {
            if p != i {
                let po: int = if p < i {
                    p
                } else {
                    p - 1
                };
                assert(ns[po].key@ == x);
                assert(nfe_has_key(ns, e.key@));
            }
            assert(l[x] == str_set(ns2[i].origins@));
        } else {
            assert(p != i);
            let po: int = if p < i {
                p
            } else {
                p - 1
            };
            assert(ns[po].key@ == x);
            let q = choose|q: int| 0 <= q < ns.len() && ns[q].key@ == x;
            lemma_nfe_key_unique(ns, po, q);
            assert(l[x] == str_set(ns2[p].origins@));
            assert(r[x] == str_set(ns[q].origins@));
        }
    }
    assert(l =~= r);
}

/// Merges one invoice key with its origins into a sorted entry vector.
pub fn merge_nfe(ns: &mut Vec<NfeEntry>, key: &String, origins: &Vec<String>)
    requires
        wf_nfes(old(ns)@),
        sorted_strs(origins@),
        origins@.len() > 0,
    ensures
        wf_nfes(final(ns)@),
        nfe_map(final(ns)@) == nmap_merge_one(nfe_map(old(ns)@), key@, str_set(origins@)),
        final(ns)@.len() >= old(ns)@.len(),
        final(ns)@.len() > 0,
{
    let mut i: usize = 0;
    while i < ns.len() && str_lt(ns[i].key.as_str(), key.as_str())
        invariant
            *ns == *old(ns),
            i <= ns@.len(),
            wf_nfes(ns@),
            forall|j: int| 0 <= j < i ==> lex_lt(ns@[j].key@, key@),
        decreases ns@.len() - i,
    {
        i += 1;
    }
    if i < ns.len() && ns[i].key.eq(key) {
        let ghost oldns = ns@;
        proof {
            lemma_nfe_map_index(oldns, i as int);
        }
        let merged = union_strs(&ns[i].origins, origins);
        let kept = ns[i].key.clone();
        let e = NfeEntry { key: kept, origins: merged };
        ns.remove(i);
        ns.insert(i, e);
        proof {
            assert(ns@ =~= oldns.update(i as int, e));
            lemma_nfe_map_update(oldns, i as int, e);
            assert(nfe_map(ns@) =~= nmap_merge_one(nfe_map(oldns), key@, str_set(origins@)));
        }
        return ;
    }
    proof {
        if i < ns@.len() {
            assert(!lex_lt(ns@[i as int].key@, key@));
            assert(ns@[i as int].key@ != key@);
            if !lex_lt(key@, ns@[i as int].key@) {
                lemma_lex_lt_connected(ns@[i as int].key@, key@);
            }
            assert(lex_lt(key@, ns@[i as int].key@));
        }
        assert forall|j: int| 0 <= j < ns@.len() implies ns@[j].key@ != key@ by {
            if j < i {
                lemma_lex_neq(ns@[j].key@, key@);
            } else {
                if j > i {
                    lemma_lex_lt_trans(key@, ns@[i as int].key@, ns@[j].key@);
                }
                lemma_lex_neq(key@, ns@[j].key@);
            }
        }
        assert(!nfe_has_key(ns@, key@));
    }
    let ghost oldns = ns@;
    let e = NfeEntry { key: key.clone(), origins: clone_strs(origins) };
    ns.insert(i, e);
    proof {
        let nv = ns@;
        assert(nv == oldns.insert(i as int, e));
        assert forall|p: int, q: int| 0 <= p < q < nv.len() implies lex_lt(
            nv[p].key@,
            nv[q].key@,
        ) by {
            if q < i {
            } else if q == i {
                assert(nv[p] == oldns[p]);
            } else {
                assert(nv[q] == oldns[q - 1]);
                if p < i {
                    if p == q - 1 {
                    } else {
                        assert(lex_lt(oldns[p].key@, oldns[q - 1].key@));
                    }
                } else if p == i {
                    assert(lex_lt(key@, oldns[i as int].key@));
                    if q - 1 > i {
                        lemma_lex_lt_trans(key@, oldns[i as int].key@, oldns[q - 1].key@);
                    }
                } else {
                    assert(nv[p] == oldns[p - 1]);
                }
            }
        }
        assert(forall|j: int|
            0 <= j < nv.len() ==> sorted_strs(#[trigger] nv[j].origins@) && nv[j].origins@.len()
                > 0);
        lemma_nfe_map_insert(oldns, i as int, e);
        assert(nfe_map(nv) =~= nmap_merge_one(nfe_map(oldns), key@, str_set(origins@)));
    }
}

proof fn lemma_nmap_union_merge_step(a: NfeView, b: NfeView, k: Seq<char>, os: OriginSet)
    requires
        !b.dom().contains(k),
    ensures
        nmap_merge_one(nmap_union(a, b), k, os) == nmap_union(a, b.insert(k, os)),
{
    let l = nmap_merge_one(nmap_union(a, b), k, os);
    let r = nmap_union(a, b.insert(k, os));
    assert forall|x: Seq<char>| l.dom().contains(x) implies l[x] == r[x] by {
        if x == k {
            if a.dom().contains(k) {
                assert(l[x] =~= r[x]);
            }
        }
    }
    assert(l =~= r);
}

proof fn lemma_nmap_union_empty(a: NfeView)
    ensures
        nmap_union(a, Map::<Seq<char>, Set<Seq<char>>>::empty()) == a,
        nmap_union(Map::<Seq<char>, Set<Seq<char>>>::empty(), a) == a,
{
    assert(nmap_union(a, Map::<Seq<char>, Set<Seq<char>>>::empty()) =~= a);
    assert(nmap_union(Map::<Seq<char>, Set<Seq<char>>>::empty(), a) =~= a);
}

/// The union of two sorted invoice-key maps.
pub fn union_nfes(a: &Vec<NfeEntry>, b: &Vec<NfeEntry>) -> (r: Vec<NfeEntry>)
    requires
        wf_nfes(a@),
        wf_nfes(b@),
    ensures
        wf_nfes(r@),
        nfe_map(r@) == nmap_union(nfe_map(a@), nfe_map(b@)),
        a@.len() > 0 ==> r@.len() > 0,
        b@.len() > 0 ==> r@.len() > 0,
{
    let mut r: Vec<NfeEntry> = Vec::new();
    proof {
        assert(nfe_map(r@) =~= nfe_map(a@.subrange(0, 0)));
    }
    let mut i: usize = 0;
    while i < a.len()
        invariant
            i <= a@.len(),
            wf_nfes(a@),
            wf_nfes(b@),
            wf_nfes(r@),
            nfe_map(r@) == nfe_map(a@.subrange(0, i as int)),
            i > 0 ==> r@.len() > 0,
        decreases a@.len() - i,
    {
        let ghost pre = a@.subrange(0, i as int);
        proof {
            assert forall|j: int| 0 <= j < pre.len() implies pre[j].key@ != a@[i as int].key@ by {
                lemma_lex_neq(pre[j].key@, a@[i as int].key@);
            }
            assert(!nfe_has_key(pre, a@[i as int].key@));
            assert(!nfe_map(pre).dom().contains(a@[i as int].key@));
        }
        merge_nfe(&mut r, &a[i].key, &a[i].origins);
        proof {
            assert(pre.push(a@[i as int]) =~= pre.insert(pre.len() as int, a@[i as int]));
            lemma_nfe_map_insert(pre, pre.len() as int, a@[i as int]);
            assert(a@.subrange(0, i + 1 as int) =~= pre.push(a@[i as int]));
        }
        i += 1;
    }
    proof {
        assert(a@.subrange(0, a@.len() as int) =~= a@);
        assert(b@.subrange(0, 0) =~= Seq::<NfeEntry>::empty());
        assert(nfe_map(b@.subrange(0, 0)) =~= Map::<Seq<char>, Set<Seq<char>>>::empty());
        lemma_nmap_union_empty(nfe_map(a@));
    }
    let mut j: usize = 0;
    while j < b.len()
        invariant
            j <= b@.len(),
            wf_nfes(b@),
            wf_nfes(r@),
            nfe_map(r@) == nmap_union(nfe_map(a@), nfe_map(b@.subrange(0, j as int))),
            a@.len() > 0 ==> r@.len() > 0,
            j > 0 ==> r@.len() > 0,
        decreases b@.len() - j,
    {
        let ghost pre = b@.subrange(0, j as int);
        proof {
            assert forall|p: int| 0 <= p < pre.len() implies pre[p].key@ != b@[j as int].key@ by {
                lemma_lex_neq(pre[p].key@, b@[j as int].key@);
            }
            assert(!nfe_has_key(pre, b@[j as int].key@));
            assert(!nfe_map(pre).dom().contains(b@[j as int].key@));
        }
        merge_nfe(&mut r, &b[j].key, &b[j].origins);
        proof {
            lemma_nmap_union_merge_step(
                nfe_map(a@),
                nfe_map(pre),
                b@[j as int].key@,
                str_set(b@[j as int].origins@),
            );
            assert(pre.push(b@[j as int]) =~= pre.insert(pre.len() as int, b@[j as int]));
            lemma_nfe_map_insert(pre, pre.len() as int, b@[j as int]);
            assert(b@.subrange(0, j + 1 as int) =~= pre.push(b@[j as int]));
        }
        j += 1;
    }
    proof {
        assert(b@.subrange(0, b@.len() as int) =~= b@);
    }
    r
}

// ---------------------------------------------------------------------------
// The aggregated map.
// ---------------------------------------------------------------------------

/// One merge step on the aggregate: unite an invoice-key map under `k`.
pub open spec fn agg_merge_one(a: AggView, k: Seq<char>, nm: NfeView) -> AggView {
    a.insert(
        k,
        if a.dom().contains(k) {
            nmap_union(a[k], nm)
        } else {
            nm
        },
    )
}

proof fn lemma_agg_map_update(es: Seq<CteEntry>, i: int, e: CteEntry)
    requires
        forall|p: int, q: int| 0 <= p < q < es.len() ==> lex_lt(es[p].key@, es[q].key@),
        0 <= i < es.len(),
        e.key@ == es[i].key@,
    ensures
        agg_map_of(es.update(i, e)) == agg_map_of(es).insert(e.key@, nfe_map(e.nfes@)),
        forall|p: int, q: int|
            0 <= p < q < es.update(i, e).len() ==> lex_lt(
                es.update(i, e)[p].key@,
                es.update(i, e)[q].key@,
            ),
{
    let es2 = es.update(i, e);
    assert(forall|j: int| 0 <= j < es2.len() ==> es2[j].key@ == es[j].key@);
    let l = agg_map_of(es2);
    let r = agg_map_of(es).insert(e.key@, nfe_map(e.nfes@));
    assert forall|x: Seq<char>| l.dom().contains(x) implies r.dom().contains(x) by {
        let p = choose|p: int| 0 <= p < es2.len() && es2[p].key@ == x;
        assert(es[p].key@ == x);
    }
    assert forall|x: Seq<char>| r.dom().contains(x) implies l.dom().contains(x) by {
        if x == e.key@ {
            assert(es2[i].key@ == x);
        } else {
            let p = choose|p: int| 0 <= p < es.len() && es[p].key@ == x;
            assert(es2[p].key@ == x);
        }
    }
    assert forall|x: Seq<char>| l.dom().contains(x) implies l[x] == r[x] by {
        let p = choose|p: int| 0 <= p < es2.len() && es2[p].key@ == x;
        if x == e.key@ {
            lemma_cte_key_unique(es, p, i);
            assert(l[x] == nfe_map(es2[i].nfes@));
        } else {
            assert(p != i);
            let q = choose|q: int| 0 <= q < es.len() && es[q].key@ == x;
            lemma_cte_key_unique(es, p, q);
            assert(l[x] == nfe_map(es2[p].nfes@));
            assert(r[x] == nfe_map(es[q].nfes@));
        }
    }
    assert(l =~= r);
}

proof fn lemma_agg_map_insert(es: Seq<CteEntry>, i: int, e: CteEntry)
    requires
        forall|p: int, q: int| 0 <= p < q < es.len() ==> lex_lt(es[p].key@, es[q].key@),
        0 <= i <= es.len(),
        !agg_has_key(es, e.key@),
    ensures
        agg_map_of(es.insert(i, e)) == agg_map_of(es).insert(e.key@, nfe_map(e.nfes@)),
{
    let es2 = es.insert(i, e);
    assert(forall|j: int| 0 <= j < i ==> es2[j] == es[j]);
    assert(es2[i] == e);
    assert(forall|j: int| i < j < es2.len() ==> es2[j] == es[j - 1]);
    let l = agg_map_of(es2);
    let r = agg_map_of(es).insert(e.key@, nfe_map(e.nfes@));
    assert forall|x: Seq<char>| l.dom().contains(x) implies r.dom().contains(x) by {
        let p = choose|p: int| 0 <= p < es2.len() && es2[p].key@ == x;
        if p < i {
            assert(es[p].key@ == x);
        } else if p > i {
            assert(es[p - 1].key@ == x);
        }
    }
    assert forall|x: Seq<char>| r.dom().contains(x) implies l.dom().contains(x) by {
        if x == e.key@ {
            assert(es2[i].key@ == x);
        } else {
            let p = choose|p: int| 0 <= p < es.len() && es[p].key@ == x;
            if p < i {
                assert(es2[p].key@ == x);
            } else {
                assert(es2[p + 1].key@ == x);
            }
        }
    }
    assert forall|x: Seq<char>| l.dom().contains(x) implies l[x] == r[x] by {
        let p = choose|p: int| 0 <= p < es2.len() && es2[p].key@ == x;
        if x == e.key@ {
            if p != i {
                let po: int = if p < i {
                    p
                } else {
                    p - 1
                };
                assert(es[po].key@ == x);
                assert(agg_has_key(es, e.key@));
            }
            assert(l[x] == nfe_map(es2[i].nfes@));
        } else {
            assert(p != i);
            let po: int = if p < i {
                p
            } else {
                p - 1
            };
            assert(es[po].key@ == x);
            let q = choose|q: int| 0 <= q < es.len() && es[q].key@ == x;
            lemma_cte_key_unique(es, po, q);
            assert(l[x] == nfe_map(es2[p].nfes@));
            assert(r[x] == nfe_map(es[q].nfes@));
        }
    }
    assert(l =~= r);
}

impl AggMap {
    /// The empty aggregated map.
    pub fn new() -> (m: AggMap)
        ensures
            m.wf(),
            m@ == Map::<Seq<char>, NfeView>::empty(),
    {
        let m = AggMap { entries: Vec::new() };
        proof {
            assert(m@ =~= Map::<Seq<char>, NfeView>::empty());
        }
        m
    }
}

/// Merges one transport key together with an invoice-key map into the
/// aggregate.
pub fn merge_cte(m: &mut AggMap, key: &String, nfes: &Vec<NfeEntry>)
    requires
        old(m).wf(),
        wf_nfes(nfes@),
        nfes@.len() > 0,
    ensures
        final(m).wf(),
        final(m)@ == agg_merge_one(old(m)@, key@, nfe_map(nfes@)),
{
    let mut i: usize = 0;
    while i < m.entries.len() && str_lt(m.entries[i].key.as_str(), key.as_str())
        invariant
            *m == *old(m),
            i <= m.entries@.len(),
            forall|p: int, q: int|
                0 <= p < q < m.entries@.len() ==> lex_lt(m.entries@[p].key@, m.entries@[q].key@),
            forall|j: int| 0 <= j < i ==> lex_lt(m.entries@[j].key@, key@),
        decreases m.entries@.len() - i,
    {
        i += 1;
    }
    if i < m.entries.len() && m.entries[i].key.eq(key) {
        let ghost oldes = m.entries@;
        proof {
            lemma_agg_map_index(oldes, i as int);
        }
        let merged = union_nfes(&m.entries[i].nfes, nfes);
        let kept = m.entries[i].key.clone();
        let e = CteEntry { key: kept, nfes: merged };
        m.entries.remove(i);
        m.entries.insert(i, e);
        proof {
            assert(m.entries@ =~= oldes.update(i as int, e));
            lemma_agg_map_update(oldes, i as int, e);
            assert(agg_map_of(m.entries@) =~= agg_merge_one(
                agg_map_of(oldes),
                key@,
                nfe_map(nfes@),
            ));
        }
        return ;
    }
    proof {
        if i < m.entries@.len() {
            assert(!lex_lt(m.entries@[i as int].key@, key@));
            assert(m.entries@[i as int].key@ != key@);
            if !lex_lt(key@, m.entries@[i as int].key@) {
                lemma_lex_lt_connected(m.entries@[i as int].key@, key@);
            }
            assert(lex_lt(key@, m.entries@[i as int].key@));
        }
        assert forall|j: int| 0 <= j < m.entries@.len() implies m.entries@[j].key@ != key@ by {
            if j < i {
                lemma_lex_neq(m.entries@[j].key@, key@);
            } else {
                if j > i {
                    lemma_lex_lt_trans(key@, m.entries@[i as int].key@, m.entries@[j].key@);
                }
                lemma_lex_neq(key@, m.entries@[j].key@);
            }
        }
        assert(!agg_has_key(m.entries@, key@));
    }
    let ghost oldes = m.entries@;
    let empty_nfes: Vec<NfeEntry> = Vec::new();
    let copy = union_nfes(&empty_nfes, nfes);
    let e = CteEntry { key: key.clone(), nfes: copy };
    proof {
        lemma_nmap_union_empty(nfe_map(nfes@));
        assert(nfe_map(Seq::<NfeEntry>::empty().subrange(0, 0)) =~= Map::<
            Seq<char>,
            Set<Seq<char>>,
        >::empty());
        assert(nfe_map(e.nfes@) == nfe_map(nfes@));
    }
    m.entries.insert(i, e);
    proof {
        let nv = m.entries@;
        assert(nv == oldes.insert(i as int, e));
        assert forall|p: int, q: int| 0 <= p < q < nv.len() implies lex_lt(
            nv[p].key@,
            nv[q].key@,
        ) by {
            if q < i {
            } else if q == i {
                assert(nv[p] == oldes[p]);
            } else {
                assert(nv[q] == oldes[q - 1]);
                if p < i {
                    if p == q - 1 {
                    } else {
                        assert(lex_lt(oldes[p].key@, oldes[q - 1].key@));
                    }
                } else if p == i {
                    assert(lex_lt(key@, oldes[i as int].key@));
                    if q - 1 > i {
                        lemma_lex_lt_trans(key@, oldes[i as int].key@, oldes[q - 1].key@);
                    }
                } else {
                    assert(nv[p] == oldes[p - 1]);
                }
            }
        }
        lemma_agg_map_insert(oldes, i as int, e);
        assert(agg_map_of(nv) =~= agg_merge_one(agg_map_of(oldes), key@, nfe_map(nfes@)));
    }
}

// ---------------------------------------------------------------------------
// Folding per-document results into the aggregate.
// ---------------------------------------------------------------------------

/// The aggregate after merging the first `i` transport keys of `cs`, each
/// with the invoice-key map `nm`.
pub open spec fn merge_ctes_upto(a: AggView, cs: Seq<String>, nm: NfeView, i: int) -> AggView
    decreases i,
{
    if i <= 0 {
        a
    } else {
        agg_merge_one(merge_ctes_upto(a, cs, nm, i - 1), cs[i - 1]@, nm)
    }
}

proof fn lemma_merge_ctes_full(a: AggView, cs: Seq<String>, nm: NfeView, i: int)
    requires
        0 <= i <= cs.len(),
    ensures
        merge_ctes_upto(a, cs, nm, i) == agg_union(
            a,
            Map::new(|c: Seq<char>| str_set(cs.subrange(0, i)).contains(c), |c: Seq<char>| nm),
        ),
    decreases i,
{
    let ci = Map::new(|c: Seq<char>| str_set(cs.subrange(0, i)).contains(c), |c: Seq<char>| nm);
    if i == 0 {
        assert(merge_ctes_upto(a, cs, nm, 0) == a);
        assert(agg_union(a, ci) =~= a);
    } else {
        lemma_merge_ctes_full(a, cs, nm, i - 1);
        let cp = Map::new(
            |c: Seq<char>| str_set(cs.subrange(0, i - 1)).contains(c),
            |c: Seq<char>| nm,
        );
        let k = cs[i - 1]@;
        assert(cs.subrange(0, i) =~= cs.subrange(0, i - 1).push(cs[i - 1]));
        lemma_str_set_push(cs.subrange(0, i - 1), cs[i - 1]);
        let l = agg_merge_one(agg_union(a, cp), k, nm);
        let r = agg_union(a, ci);
        assert forall|x: Seq<char>| l.dom().contains(x) implies r.dom().contains(x) by {}
        assert forall|x: Seq<char>| r.dom().contains(x) implies l.dom().contains(x) by {}
        assert forall|x: Seq<char>| l.dom().contains(x) implies l[x] == r[x] by {
            if x == k {
                if a.dom().contains(k) && cp.dom().contains(k) {
                    lemma_nmap_union_idem(a[k], nm);
                } else if a.dom().contains(k) {
                } else if cp.dom().contains(k) {
                    assert(nmap_union(nm, nm) =~~= nm);
                } else {
                }
            }
        }
        assert(l =~= r);
    }
}

/// Folds one per-document result into the aggregate: every transport key of
/// the document receives the document's whole invoice-key map, by union.
pub fn combine(m: &mut AggMap, r: &PerDocResult)
    requires
        old(m).wf(),
        r.wf(),
    ensures
        final(m).wf(),
        final(m)@ == agg_union(old(m)@, contribution(r.dv())),
{
    if r.ctes.len() == 0 || r.nfes.len() == 0 {
        proof {
            if r.ctes@.len() == 0 {
                assert(r.dv().0 =~= Set::<Seq<char>>::empty());
            } else {
                assert(r.dv().1.dom() =~= Set::<Seq<char>>::empty());
            }
            lemma_degenerate_contributes_nothing(m@, r.dv());
        }
        return ;
    }
    let ghost m0 = m@;
    let ghost nm = nfe_map(r.nfes@);
    let mut i: usize = 0;
    while i < r.ctes.len()
        invariant
            i <= r.ctes@.len(),
            r.wf(),
            r.nfes@.len() > 0,
            nm == nfe_map(r.nfes@),
            m.wf(),
            m@ == merge_ctes_upto(m0, r.ctes@, nm, i as int),
        decreases r.ctes@.len() - i,
    {
        merge_cte(m, &r.ctes[i], &r.nfes);
        proof {
            assert(merge_ctes_upto(m0, r.ctes@, nm, i + 1 as int) == agg_merge_one(
                merge_ctes_upto(m0, r.ctes@, nm, i as int),
                r.ctes@[i as int]@,
                nm,
            ));
        }
        i += 1;
    }
    proof {
        lemma_merge_ctes_full(m0, r.ctes@, nm, r.ctes@.len() as int);
        assert(r.ctes@.subrange(0, r.ctes@.len() as int) =~= r.ctes@);
        assert(r.dv().0.contains(r.ctes@[0]@));
        assert(r.dv().1.dom().contains(r.nfes@[0].key@));
        assert(!degenerate(r.dv()));
        assert(contribution(r.dv()) =~= Map::new(
            |c: Seq<char>| str_set(r.ctes@).contains(c),
            |c: Seq<char>| nm,
        ));
    }
}

/// Merges a whole aggregated map into another: the reduction step that
/// unites two batch results.
pub fn merge_maps(m: &mut AggMap, other: &AggMap)
    requires
        old(m).wf(),
        other.wf(),
    ensures
        final(m).wf(),
        final(m)@ == agg_union(old(m)@, other@),
{
    let ghost m0 = m@;
    proof {
        assert(agg_map_of(other.entries@.subrange(0, 0)) =~= Map::<Seq<char>, NfeView>::empty());
        lemma_agg_union_empty_right(m0);
    }
    let mut i: usize = 0;
    while i < other.entries.len()
        invariant
            i <= other.entries@.len(),
            other.wf(),
            m.wf(),
            m@ == agg_union(m0, agg_map_of(other.entries@.subrange(0, i as int))),
        decreases other.entries@.len() - i,
    {
        let ghost pre = other.entries@.subrange(0, i as int);
        let ghost en = other.entries@[i as int];
        proof {
            assert forall|p: int| 0 <= p < pre.len() implies pre[p].key@ != en.key@ by {
                lemma_lex_neq(pre[p].key@, en.key@);
            }
            assert(!agg_has_key(pre, en.key@));
        }
        merge_cte(m, &other.entries[i].key, &other.entries[i].nfes);
        proof {
            lemma_agg_union_merge_step(m0, agg_map_of(pre), en.key@, nfe_map(en.nfes@));
            assert(pre.push(en) =~= pre.insert(pre.len() as int, en));
            lemma_agg_map_insert(pre, pre.len() as int, en);
            assert(other.entries@.subrange(0, i + 1 as int) =~= pre.push(en));
        }
        i += 1;
    }
    proof {
        assert(other.entries@.subrange(0, other.entries@.len() as int) =~= other.entries@);
    }
}

proof fn lemma_agg_union_merge_step(a: AggView, b: AggView, k: Seq<char>, nm: NfeView)
    requires
        !b.dom().contains(k),
    ensures
        agg_merge_one(agg_union(a, b), k, nm) == agg_union(a, b.insert(k, nm)),
{
    let l = agg_merge_one(agg_union(a, b), k, nm);
    let r = agg_union(a, b.insert(k, nm));
    assert forall|x: Seq<char>| l.dom().contains(x) implies l[x] == r[x] by {
        if x == k {
            if a.dom().contains(k) {
                assert(l[x] =~= r[x]);
            }
        }
    }
    assert(l =~= r);
}

/// Aggregates a batch of per-document results into one mapping.
pub fn fold_results(rs: &Vec<PerDocResult>) -> (m: AggMap)
    requires
        forall|i: int| 0 <= i < rs@.len() ==> (#[trigger] rs@[i]).wf(),
    ensures
        m.wf(),
        m@ == agg_of(rs@.map_values(|r: PerDocResult| r.dv())),
{
    let mut m = AggMap::new();
    proof {
        assert(rs@.subrange(0, 0).map_values(|r: PerDocResult| r.dv()) =~= Seq::<
            DocView,
        >::empty());
        lemma_agg_of_empty();
    }
    let mut i: usize = 0;
    while i < rs.len()
        invariant
            i <= rs@.len(),
            forall|j: int| 0 <= j < rs@.len() ==> (#[trigger] rs@[j]).wf(),
            m.wf(),
            m@ == agg_of(rs@.subrange(0, i as int).map_values(|r: PerDocResult| r.dv())),
        decreases rs@.len() - i,
    {
        combine(&mut m, &rs[i]);
        proof {
            let f = |r: PerDocResult| r.dv();
            lemma_agg_of_push(rs@.subrange(0, i as int).map_values(f), rs@[i as int].dv());
            assert(rs@.subrange(0, i + 1 as int).map_values(f) =~= rs@.subrange(
                0,
                i as int,
            ).map_values(f).push(rs@[i as int].dv()));
        }
        i += 1;
    }
    proof {
        assert(rs@.subrange(0, rs@.len() as int) =~= rs@);
    }
    m
}

} // verus!
