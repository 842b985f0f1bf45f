use vstd::prelude::*;
use crate::aggregate::{
    agg_of, combine, nfe_map, nmap_merge_one, str_set, AggMap, DocView, NfeEntry, NfeView,
    PerDocResult,
};
use crate::aggregate::{insert_str, lemma_agg_of_empty, lemma_agg_of_push, lemma_agg_same_elements};
use crate::aggregate::{lemma_agg_canonical, rep_agg};
use crate::aggregate::merge_nfe;
use crate::chars::to_char_vec;
use crate::error::{MyError, MyResult};
use crate::matcher::{collapse, scan_cte, scan_cte_x, scan_nfe, scan_nfe_x, strip_spaces, Pats};
use crate::matcher::NfeMatch;
use crate::validate::{
    spec_digits_of, spec_found_code, spec_key_valid, verify_key_code,
};

verus! {

// ---------------------------------------------------------------------------
// Per-document extraction: scan the collapsed text, validate every
// transport key against code "57" and every accepted invoice key against
// code "55", and build the document's result. A validation failure aborts
// the whole document.
// ---------------------------------------------------------------------------

/// The document-type code of a transport document.
pub open spec fn code_cte() -> Seq<char> {
    seq!['5', '7']
}

/// The document-type code of an invoice.
pub open spec fn code_nfe() -> Seq<char> {
    seq!['5', '5']
}

/// The set of elements of a sequence of keys.
pub open spec fn seq_set(s: Seq<Seq<char>>) -> Set<Seq<char>> {
    Set::new(|k: Seq<char>| s.contains(k))
}

/// An invoice-key match is accepted when its opening and closing marker
/// texts are identical and non-empty.
pub open spec fn accepted(m: (Seq<char>, Seq<char>, Seq<char>)) -> bool {
    m.0 == m.2 && m.0.len() > 0
}

/// Every transport key the scanner finds carries code "57".
pub open spec fn cte_all_valid(t: Seq<char>) -> bool {
    forall|i: int|
        0 <= i < scan_cte(t, 0).len() ==> spec_key_valid(#[trigger] scan_cte(t, 0)[i], code_cte())
}

/// Every accepted invoice-key match carries code "55".
pub open spec fn nfe_all_valid(t: Seq<char>) -> bool {
    forall|i: int|
        0 <= i < scan_nfe(t, 0).len() && accepted(#[trigger] scan_nfe(t, 0)[i])
            ==> spec_key_valid(scan_nfe(t, 0)[i].1, code_nfe())
}

/// Extraction of a document succeeds exactly when every key it exposes is
/// valid for its family.
pub open spec fn spec_extract_ok(t: Seq<char>) -> bool {
    cte_all_valid(t) && nfe_all_valid(t)
}

/// The transport keys of a document.
pub open spec fn doc_cte_set(t: Seq<char>) -> Set<Seq<char>> {
    seq_set(scan_cte(t, 0))
}

/// The invoice-key map built from the first `j` scanned matches.
pub open spec fn nfe_map_upto(sc: Seq<(Seq<char>, Seq<char>, Seq<char>)>, j: int) -> NfeView {
    Map::new(
        |nk: Seq<char>|
            exists|i: int| 0 <= i < j && i < sc.len() && accepted(#[trigger] sc[i]) && sc[i].1
                == nk,
        |nk: Seq<char>|
            Set::new(
                |o: Seq<char>|
                    exists|i: int|
                        0 <= i < j && i < sc.len() && accepted(#[trigger] sc[i]) && sc[i].1 == nk
                            && sc[i].0 == o,
            ),
    )
}

/// The invoice-key -> origins map of a document.
pub open spec fn doc_nfe_map(t: Seq<char>) -> NfeView {
    nfe_map_upto(scan_nfe(t, 0), scan_nfe(t, 0).len() as int)
}

/// The document view that extraction yields on success.
pub open spec fn doc_dv(t: Seq<char>) -> DocView {
    (doc_cte_set(t), doc_nfe_map(t))
}

/// The first failing transport key is at index `i`.
pub open spec fn cte_err_at(t: Seq<char>, i: int) -> bool {
    &&& 0 <= i < scan_cte(t, 0).len()
    &&& !spec_key_valid(scan_cte(t, 0)[i], code_cte())
    &&& forall|j: int| 0 <= j < i ==> spec_key_valid(#[trigger] scan_cte(t, 0)[j], code_cte())
}

/// The first failing accepted invoice key is at index `i`.
pub open spec fn nfe_err_at(t: Seq<char>, i: int) -> bool {
    &&& 0 <= i < scan_nfe(t, 0).len()
    &&& accepted(scan_nfe(t, 0)[i])
    &&& !spec_key_valid(scan_nfe(t, 0)[i].1, code_nfe())
    &&& forall|j: int|
        0 <= j < i && accepted(#[trigger] scan_nfe(t, 0)[j]) ==> spec_key_valid(
            scan_nfe(t, 0)[j].1,
            code_nfe(),
        )
}

/// The error a failing document surfaces: the validation record of its
/// first invalid key, transport keys checked before invoice keys.
pub open spec fn doc_error_desc(e: MyError, path: Seq<char>, t: Seq<char>) -> bool {
    match e {
        MyError::InvalidFiscalKey(p, d, f, x) => {
            &&& p@ == path
            &&& ((exists|i: int|
                #[trigger] cte_err_at(t, i) && d@ == spec_digits_of(scan_cte(t, 0)[i]) && f@
                    == spec_found_code(spec_digits_of(scan_cte(t, 0)[i])) && x@ == code_cte()) || (
            cte_all_valid(t) && exists|i: int|
                #[trigger] nfe_err_at(t, i) && d@ == spec_digits_of(scan_nfe(t, 0)[i].1) && f@
                    == spec_found_code(spec_digits_of(scan_nfe(t, 0)[i].1)) && x@ == code_nfe()))
        },
        _ => false,
    }
}

/// An origin marker reaches the result only through a match whose opening
/// and closing texts both equal that marker: a match whose markers differ
/// is never inserted.
pub proof fn lemma_mismatched_marker_excluded(t: Seq<char>, nk: Seq<char>, o: Seq<char>)
    requires
        doc_nfe_map(t).dom().contains(nk),
        doc_nfe_map(t)[nk].contains(o),
    ensures
        exists|i: int|
            0 <= i < scan_nfe(t, 0).len() && (#[trigger] scan_nfe(t, 0)[i]).0 == o && scan_nfe(
                t,
                0,
            )[i].2 == o && scan_nfe(t, 0)[i].1 == nk && o.len() > 0,
{
    let sc = scan_nfe(t, 0);
    let i = choose|i: int|
        0 <= i < sc.len() && accepted(#[trigger] sc[i]) && sc[i].1 == nk && sc[i].0 == o;
    assert(sc[i].0 == o && sc[i].2 == o && sc[i].1 == nk && o.len() > 0);
}

proof fn lemma_seq_set_push(s: Seq<Seq<char>>, x: Seq<char>)
    ensures
        seq_set(s.push(x)) == seq_set(s).insert(x),
{
    let l = seq_set(s.push(x));
    let r = seq_set(s).insert(x);
    assert forall|k: Seq<char>| l.contains(k) implies r.contains(k) by {
        let i = choose|i: int| 0 <= i < s.push(x).len() && s.push(x)[i] == k;
        if i < s.len() {
            assert(s[i] == k);
        }
    }
    assert forall|k: Seq<char>| r.contains(k) implies l.contains(k) by {
        if k == x {
            assert(s.push(x)[s.len() as int] == k);
        } else {
            let i = choose|i: int| 0 <= i < s.len() && s[i] == k;
            assert(s.push(x)[i] == k);
        }
    }
    assert(l =~= r);
}

proof fn lemma_nfe_upto_skip(sc: Seq<(Seq<char>, Seq<char>, Seq<char>)>, j: int)
    requires
        0 <= j < sc.len(),
        !accepted(sc[j]),
    ensures
        nfe_map_upto(sc, j + 1) == nfe_map_upto(sc, j),
{
    let l = nfe_map_upto(sc, j + 1);
    let r = nfe_map_upto(sc, j);
    assert forall|nk: Seq<char>| l.dom().contains(nk) implies r.dom().contains(nk) by {
        let i = choose|i: int| 0 <= i < j + 1 && i < sc.len() && accepted(sc[i]) && sc[i].1 == nk;
        assert(i < j);
    }
    assert forall|nk: Seq<char>| l.dom().contains(nk) implies l[nk] =~= r[nk] by {
        assert forall|o: Seq<char>| l[nk].contains(o) implies r[nk].contains(o) by {
            let i = choose|i: int|
                0 <= i < j + 1 && i < sc.len() && accepted(sc[i]) && sc[i].1 == nk && sc[i].0 == o;
            assert(i < j);
        }
        assert forall|o: Seq<char>| r[nk].contains(o) implies l[nk].contains(o) by {}
    }
    assert(l =~= r);
}

proof fn lemma_nfe_upto_add(sc: Seq<(Seq<char>, Seq<char>, Seq<char>)>, j: int)
    requires
        0 <= j < sc.len(),
        accepted(sc[j]),
    ensures
        nfe_map_upto(sc, j + 1) == nmap_merge_one(
            nfe_map_upto(sc, j),
            sc[j].1,
            Set::<Seq<char>>::empty().insert(sc[j].0),
        ),
{
    let l = nfe_map_upto(sc, j + 1);
    let r = nmap_merge_one(
        nfe_map_upto(sc, j),
        sc[j].1,
        Set::<Seq<char>>::empty().insert(sc[j].0),
    );
    assert forall|nk: Seq<char>| l.dom().contains(nk) implies r.dom().contains(nk) by {
        let i = choose|i: int| 0 <= i < j + 1 && i < sc.len() && accepted(sc[i]) && sc[i].1 == nk;
        if i < j {
            assert(nfe_map_upto(sc, j).dom().contains(nk));
        }
    }
    assert forall|nk: Seq<char>| r.dom().contains(nk) implies l.dom().contains(nk) by {
        if nk == sc[j].1 {
            assert(0 <= j < j + 1 && j < sc.len() && accepted(sc[j]) && sc[j].1 == nk);
        } else {
            let i = choose|i: int| 0 <= i < j && i < sc.len() && accepted(sc[i]) && sc[i].1 == nk;
            assert(0 <= i < j + 1 && i < sc.len() && accepted(sc[i]) && sc[i].1 == nk);
        }
    }
    assert forall|nk: Seq<char>| l.dom().contains(nk) implies l[nk] =~= r[nk] by {
        assert forall|o: Seq<char>| l[nk].contains(o) implies r[nk].contains(o) by {
            let i = choose|i: int|
                0 <= i < j + 1 && i < sc.len() && accepted(sc[i]) && sc[i].1 == nk && sc[i].0 == o;
            if i < j {
                assert(nfe_map_upto(sc, j).dom().contains(nk));
                assert(nfe_map_upto(sc, j)[nk].contains(o));
            } else {
                assert(nk == sc[j].1 && o == sc[j].0);
            }
        }
        assert forall|o: Seq<char>| r[nk].contains(o) implies l[nk].contains(o) by {
            if nk == sc[j].1 && o == sc[j].0 {
                assert(0 <= j < j + 1 && j < sc.len() && accepted(sc[j]) && sc[j].1 == nk
                    && sc[j].0 == o);
            } else {
                if nfe_map_upto(sc, j).dom().contains(nk) && nfe_map_upto(sc, j)[nk].contains(o) {
                    let i = choose|i: int|
                        0 <= i < j && i < sc.len() && accepted(sc[i]) && sc[i].1 == nk && sc[i].0
                            == o;
                    assert(0 <= i < j + 1 && i < sc.len() && accepted(sc[i]) && sc[i].1 == nk
                        && sc[i].0 == o);
                }
            }
        }
    }
    assert(l =~= r);
}

/// Extracts one document's transport keys and invoice-key origins from its
/// text. The text is collapsed, scanned, and every exposed key validated;
/// the first invalid key aborts the document with its validation record.
pub fn extract_info_from_xml(file_path: &str, content: &str, pats: &Pats) -> (r: MyResult<
    PerDocResult,
>)
    requires
        pats.wf(),
    ensures
        r is Ok <==> spec_extract_ok(collapse(content@)),
        r is Ok ==> r->Ok_0.wf() && r->Ok_0.dv() == doc_dv(collapse(content@)),
        r is Err ==> doc_error_desc(r->Err_0, file_path@, collapse(content@)),
{
    proof {
        reveal_strlit("57");
        reveal_strlit("55");
        assert("57"@ =~= code_cte());
        assert("55"@ =~= code_nfe());
    }
    let raw = to_char_vec(content);
    let t = strip_spaces(&raw);
    let ghost gt = collapse(content@);
    let keys = scan_cte_x(&t, pats);
    let ghost sc = scan_cte(gt, 0);
    let mut ctes: Vec<String> = Vec::new();
    proof {
        assert(str_set(ctes@) =~= seq_set(sc.subrange(0, 0)));
    }
    let mut i: usize = 0;
    while i < keys.len()
        invariant
            i <= keys@.len(),
            keys@.map_values(|s: String| s@) == sc,
            gt == collapse(content@),
            sc == scan_cte(gt, 0),
            "57"@ == code_cte(),
            crate::aggregate::sorted_strs(ctes@),
            str_set(ctes@) == seq_set(sc.subrange(0, i as int)),
            forall|j: int| 0 <= j < i ==> spec_key_valid(#[trigger] sc[j], code_cte()),
        decreases keys@.len() - i,
    {
        proof {
            assert(keys@[i as int]@ == sc[i as int]);
        }
        match verify_key_code(file_path, keys[i].as_str(), "57") {
            Ok(_) => {
                insert_str(&mut ctes, &keys[i]);
                proof {
                    assert(sc.subrange(0, i + 1 as int) =~= sc.subrange(0, i as int).push(
                        sc[i as int],
                    ));
                    lemma_seq_set_push(sc.subrange(0, i as int), sc[i as int]);
                }
            },
            Err(e) => {
                proof {
                    assert(cte_err_at(gt, i as int));
                    assert(!spec_key_valid(scan_cte(gt, 0)[i as int], code_cte()));
                    assert(!cte_all_valid(gt));
                }
                return Err(e);
            },
        }
        i += 1;
    }
    proof {
        assert(sc.subrange(0, sc.len() as int) =~= sc);
        assert(cte_all_valid(gt));
    }
    let ms = scan_nfe_x(&t, pats);
    let ghost sn = scan_nfe(gt, 0);
    let mut nfes: Vec<NfeEntry> = Vec::new();
    proof {
        assert(nfe_map(nfes@) =~= nfe_map_upto(sn, 0));
    }
    let mut j: usize = 0;
    while j < ms.len()
        invariant
            j <= ms@.len(),
            ms@.map_values(|m: NfeMatch| m.triple()) == sn,
            gt == collapse(content@),
            sn == scan_nfe(gt, 0),
            "55"@ == code_nfe(),
            cte_all_valid(gt),
            crate::aggregate::wf_nfes(nfes@),
            nfe_map(nfes@) == nfe_map_upto(sn, j as int),
            forall|x: int|
                0 <= x < j && accepted(#[trigger] sn[x]) ==> spec_key_valid(sn[x].1, code_nfe()),
        decreases ms@.len() - j,
    {
        proof {
            assert(ms@[j as int].triple() == sn[j as int]);
        }
        let ok_marker = ms[j].origin.eq(&ms[j].closing) && !ms[j].origin.as_str().is_empty();
        proof {
            assert(ok_marker == accepted(sn[j as int]));
        }
        if ok_marker {
            match verify_key_code(file_path, ms[j].key.as_str(), "55") {
                Ok(_) => {
                    let origin_vec = vec![ms[j].origin.clone()];
                    proof {
                        assert(origin_vec@.len() == 1);
                        assert(crate::aggregate::sorted_strs(origin_vec@));
                        assert(str_set(origin_vec@) =~= Set::<Seq<char>>::empty().insert(
                            sn[j as int].0,
                        ));
                    }
                    merge_nfe(&mut nfes, &ms[j].key, &origin_vec);
                    proof {
                        lemma_nfe_upto_add(sn, j as int);
                    }
                },
                Err(e) => {
                    proof {
                        assert(nfe_err_at(gt, j as int));
                        assert(!spec_key_valid(scan_nfe(gt, 0)[j as int].1, code_nfe()));
                        assert(!nfe_all_valid(gt));
                    }
                    return Err(e);
                },
            }
        } else {
            proof {
                lemma_nfe_upto_skip(sn, j as int);
            }
        }
        j += 1;
    }
    proof {
        assert(nfe_all_valid(gt));
        assert(nfe_map_upto(sn, j as int) == doc_nfe_map(gt));
    }
    let result = PerDocResult { ctes, nfes };
    proof {
        assert(result.dv() == doc_dv(gt));
    }
    Ok(result)
}

// ---------------------------------------------------------------------------
// Aggregation over whole documents.
// ---------------------------------------------------------------------------

/// One document handed to the pipeline: where it came from and its raw
/// text.
#[derive(Debug, Clone)]
pub struct Document {
    pub path: String,
    pub text: String,
}

impl Document {
    /// The view this document contributes once extracted.
    pub open spec fn dv(self) -> DocView {
        doc_dv(collapse(self.text@))
    }
}

/// Aggregation is order-independent at the document level: two runs over
/// the same files, however ordered, yield the same final mapping.
pub proof fn lemma_fold_reduce_order_independent(a: Seq<Document>, b: Seq<Document>)
    requires
        a.to_multiset() == b.to_multiset(),
    ensures
        agg_of(a.map_values(|d: Document| d.dv())) == agg_of(
            b.map_values(|d: Document| d.dv()),
        ),
{
    broadcast use vstd::seq_lib::group_to_multiset_ensures;

    let f = |d: Document| d.dv();
    let ma = a.map_values(f);
    let mb = b.map_values(f);
    assert forall|x: DocView| ma.contains(x) implies mb.contains(x) by {
        let i = choose|i: int| 0 <= i < ma.len() && ma[i] == x;
        assert(a.contains(a[i]));
        assert(a.to_multiset().count(a[i]) > 0);
        assert(b.contains(a[i]));
        let j = choose|j: int| 0 <= j < b.len() && b[j] == a[i];
        assert(mb[j] == x);
    }
    assert forall|x: DocView| mb.contains(x) implies ma.contains(x) by {
        let i = choose|i: int| 0 <= i < mb.len() && mb[i] == x;
        assert(b.contains(b[i]));
        assert(b.to_multiset().count(b[i]) > 0);
        assert(a.contains(b[i]));
        let j = choose|j: int| 0 <= j < a.len() && a[j] == b[i];
        assert(ma[j] == x);
    }
    lemma_agg_same_elements(ma, mb);
}

/// Two aggregation runs over the same files, however the files are
/// ordered, end with one and the same representation: the same transport
/// keys, invoice keys and origins, level by level, in the same order.
pub proof fn lemma_aggregate_runs_agree(a: Seq<Document>, b: Seq<Document>, ma: AggMap, mb: AggMap)
    requires
        a.to_multiset() == b.to_multiset(),
        ma.wf(),
        mb.wf(),
        ma@ == agg_of(a.map_values(|d: Document| d.dv())),
        mb@ == agg_of(b.map_values(|d: Document| d.dv())),
    ensures
        rep_agg(ma) == rep_agg(mb),
{
    lemma_fold_reduce_order_independent(a, b);
    lemma_agg_canonical(ma, mb);
}

/// Extracts every document and folds all results into one aggregated
/// mapping. The first invalid key in any document aborts the whole
/// aggregation with that document's validation record.
pub fn fold_reduce(docs: &Vec<Document>, pats: &Pats) -> (r: MyResult<AggMap>)
    requires
        pats.wf(),
    ensures
        r is Ok <==> (forall|i: int|
            0 <= i < docs@.len() ==> spec_extract_ok(collapse((#[trigger] docs@[i]).text@))),
        r is Ok ==> r->Ok_0.wf() && r->Ok_0@ == agg_of(docs@.map_values(|d: Document| d.dv())),
        r is Err ==> exists|i: int|
            {
                &&& 0 <= i < docs@.len()
                &&& !spec_extract_ok(collapse((#[trigger] docs@[i]).text@))
                &&& forall|j: int|
                    0 <= j < i ==> spec_extract_ok(collapse((#[trigger] docs@[j]).text@))
                &&& doc_error_desc(r->Err_0, docs@[i].path@, collapse(docs@[i].text@))
            },
{
    let mut m = AggMap::new();
    proof {
        assert(docs@.subrange(0, 0).map_values(|d: Document| d.dv()) =~= Seq::<DocView>::empty());
        lemma_agg_of_empty();
    }
    let mut i: usize = 0;
    while i < docs.len()
        invariant
            i <= docs@.len(),
            pats.wf(),
            m.wf(),
            m@ == agg_of(docs@.subrange(0, i as int).map_values(|d: Document| d.dv())),
            forall|j: int|
                0 <= j < i ==> spec_extract_ok(collapse((#[trigger] docs@[j]).text@)),
        decreases docs@.len() - i,
    {
        match extract_info_from_xml(docs[i].path.as_str(), docs[i].text.as_str(), pats) {
            Ok(pd) => {
                combine(&mut m, &pd);
                proof {
                    let f = |d: Document| d.dv();
                    lemma_agg_of_push(docs@.subrange(0, i as int).map_values(f), pd.dv());
                    assert(docs@.subrange(0, i + 1 as int).map_values(f) =~= docs@.subrange(
                        0,
                        i as int,
                    ).map_values(f).push(docs@[i as int].dv()));
                    assert(pd.dv() == docs@[i as int].dv());
                }
            },
            Err(e) => {
                return Err(e);
            },
        }
        i += 1;
    }
    proof {
        assert(docs@.subrange(0, docs@.len() as int) =~= docs@);
    }
    Ok(m)
}

} // verus!
