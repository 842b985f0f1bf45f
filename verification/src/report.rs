use vstd::prelude::*;
use vstd::string::StringExecFns;
use crate::aggregate::{str_set, AggMap, CteEntry, NfeEntry};
use crate::aggregate::insert_str;
use crate::error::{MyError, MyResult};

verus! {

// ---------------------------------------------------------------------------
// Rendering the aggregated map: one line per transport key, in ascending
// key order, listing the distinct invoice keys mapped to it, followed by
// the two summary counts.
// ---------------------------------------------------------------------------

/// The digit character of a value below ten.
pub open spec fn digit_char(d: int) -> char {
    if d == 0 {
        '0'
    } else if d == 1 {
        '1'
    } else if d == 2 {
        '2'
    } else if d == 3 {
        '3'
    } else if d == 4 {
        '4'
    } else if d == 5 {
        '5'
    } else if d == 6 {
        '6'
    } else if d == 7 {
        '7'
    } else if d == 8 {
        '8'
    } else {
        '9'
    }
}

/// The decimal representation of a number, most significant digit first.
pub open spec fn dec_rep(n: nat) -> Seq<char>
    decreases n,
{
    if n < 10 {
        seq![digit_char(n as int)]
    } else {
        dec_rep(n / 10).push(digit_char((n % 10) as int))
    }
}

fn digit_char_x(d: usize) -> (c: char)
    requires
        d < 10,
    ensures
        c == digit_char(d as int),
{
    if d == 0 {
        '0'
    } else if d == 1 {
        '1'
    } else if d == 2 {
        '2'
    } else if d == 3 {
        '3'
    } else if d == 4 {
        '4'
    } else if d == 5 {
        '5'
    } else if d == 6 {
        '6'
    } else if d == 7 {
        '7'
    } else if d == 8 {
        '8'
    } else {
        '9'
    }
}

/// Renders a number in decimal.
pub fn usize_to_string(n: usize) -> (s: String)
    ensures
        s@ == dec_rep(n as nat),
{
    let mut rev: Vec<char> = Vec::new();
    let mut m = n;
    loop
        invariant_except_break
            rev@.len() == 0 ==> m == n,
            rev@.len() > 0 ==> m > 0,
            rev@.len() > 0 ==> dec_rep(n as nat) == dec_rep(m as nat) + rev@.reverse(),
        ensures
            dec_rep(n as nat) == rev@.reverse(),
        decreases m,
    {
        let d = m % 10;
        let c = digit_char_x(d);
        proof {
            let old_rev = rev@;
            assert(old_rev.push(c).reverse() =~= seq![c] + old_rev.reverse());
            if m >= 10 {
                assert(dec_rep(m as nat) == dec_rep((m / 10) as nat).push(
                    digit_char((m % 10) as int),
                ));
                assert(dec_rep((m / 10) as nat).push(c) + old_rev.reverse() =~= dec_rep(
                    (m / 10) as nat,
                ) + (seq![c] + old_rev.reverse()));
                if old_rev.len() == 0 {
                    assert(dec_rep(n as nat) + old_rev.reverse() =~= dec_rep(n as nat));
                }
            } else {
                assert(dec_rep(m as nat) == seq![c]);
                if old_rev.len() == 0 {
                    assert(seq![c] + old_rev.reverse() =~= seq![c]);
                }
            }
        }
        rev.push(c);
        m = m / 10;
        if m == 0 {
            break ;
        }
    }
    let mut chars: Vec<char> = Vec::new();
    let mut k = rev.len();
    while k > 0
        invariant
            k <= rev@.len(),
            chars@ == rev@.reverse().subrange(0, rev@.len() - k),
        decreases k,
    {
        k -= 1;
        chars.push(rev[k]);
        proof {
            assert(rev@.reverse()[rev@.len() - k - 1] == rev@[k as int]);
            assert(chars@ =~= rev@.reverse().subrange(0, rev@.len() - k));
        }
    }
    proof {
        assert(chars@ =~= rev@.reverse());
    }
    crate::chars::chars_to_string(&chars)
}

/// The listed keys joined with a comma and a space.
pub open spec fn joined(ks: Seq<Seq<char>>) -> Seq<char>
    decreases ks.len(),
{
    if ks.len() == 0 {
        Seq::empty()
    } else if ks.len() == 1 {
        ks[0]
    } else {
        joined(ks.drop_last()) + ", "@ + ks.last()
    }
}

/// One report line for a transport key and the invoice keys listed under
/// it.
pub open spec fn line_of(cte: Seq<char>, ks: Seq<Seq<char>>) -> Seq<char> {
    "cte: "@ + cte + ", "@ + dec_rep(ks.len() as nat) + " nfes: ["@ + joined(ks) + "]"@
}

/// The invoice keys a transport entry lists: all of its keys except the
/// transport key itself.
pub open spec fn listed_keys(e: CteEntry) -> Seq<Seq<char>> {
    e.nfes@.map_values(|x: NfeEntry| x.key@).filter(|k: Seq<char>| k != e.key@)
}

/// The rendered report: the lines in transport-key order and the two
/// summary counts.
#[derive(Debug, Clone, PartialEq, Eq)]
pub struct Report {
    pub lines: Vec<String>,
    pub num_ctes: usize,
    pub num_nfes: usize,
}

/// The distinct invoice keys listed anywhere in the report.
pub open spec fn all_listed_keys(es: Seq<CteEntry>) -> Set<Seq<char>> {
    Set::new(
        |n: Seq<char>| exists|i: int| 0 <= i < es.len() && (#[trigger] listed_keys(es[i])).contains(
            n,
        ),
    )
}

proof fn lemma_str_set_len(v: Seq<String>)
    requires
        forall|i: int, j: int| 0 <= i < j < v.len() ==> v[i]@ != v[j]@,
    ensures
        str_set(v).finite(),
        str_set(v).len() == v.len(),
    decreases v.len(),
{
    if v.len() == 0 {
        assert(str_set(v) =~= Set::<Seq<char>>::empty());
    } else {
        let pre = v.drop_last();
        lemma_str_set_len(pre);
        assert(pre.push(v.last()) =~= v);
        crate::aggregate::lemma_str_set_push(pre, v.last());
        assert(!str_set(pre).contains(v.last()@));
    }
}

/// Renders the aggregated map. Fails only when the map is empty: then no
/// transport key had any invoice reference, and there is nothing to
/// report.
pub fn format_report(m: &AggMap) -> (r: MyResult<Report>)
    requires
        m.wf(),
    ensures
        r is Ok <==> m.entries@.len() > 0,
        r is Err ==> r->Err_0 == MyError::NoComplementaryCtesFound,
        r is Ok ==> {
            &&& r->Ok_0.lines@.len() == m.entries@.len()
            &&& forall|i: int|
                0 <= i < m.entries@.len() ==> (#[trigger] r->Ok_0.lines@[i])@ == line_of(
                    m.entries@[i].key@,
                    listed_keys(m.entries@[i]),
                )
            &&& r->Ok_0.num_ctes == m.entries@.len()
            &&& r->Ok_0.num_nfes == all_listed_keys(m.entries@).len()
        },
{
    if m.entries.len() == 0 {
        return Err(MyError::NoComplementaryCtesFound);
    }
    let mut lines: Vec<String> = Vec::new();
    let mut all_nfes: Vec<String> = Vec::new();
    proof {
        assert(str_set(all_nfes@) =~= all_listed_keys(m.entries@.subrange(0, 0)));
    }
    let mut i: usize = 0;
    while i < m.entries.len()
        invariant
            i <= m.entries@.len(),
            m.wf(),
            lines@.len() == i,
            forall|x: int|
                0 <= x < i ==> (#[trigger] lines@[x])@ == line_of(
                    m.entries@[x].key@,
                    listed_keys(m.entries@[x]),
                ),
            crate::aggregate::sorted_strs(all_nfes@),
            str_set(all_nfes@) == all_listed_keys(m.entries@.subrange(0, i as int)),
        decreases m.entries@.len() - i,
    {
        let e = &m.entries[i];
        let mut ks: Vec<String> = Vec::new();
        proof {
            reveal(Seq::filter);
            assert(ks@.map_values(|s: String| s@) =~= e.nfes@.subrange(0, 0).map_values(
                |x: NfeEntry| x.key@,
            ).filter(|k: Seq<char>| k != e.key@));
        }
        let mut j: usize = 0;
        while j < e.nfes.len()
            invariant
                j <= e.nfes@.len(),
                ks@.map_values(|s: String| s@) == e.nfes@.subrange(0, j as int).map_values(
                    |x: NfeEntry| x.key@,
                ).filter(|k: Seq<char>| k != e.key@),
            decreases e.nfes@.len() - j,
        {
            let ghost fpred = |k: Seq<char>| k != e.key@;
            let ghost keymap = |x: NfeEntry| x.key@;
            let ghost pre = e.nfes@.subrange(0, j as int).map_values(keymap);
            let ghost post = e.nfes@.subrange(0, j + 1 as int).map_values(keymap);
            proof {
                reveal(Seq::filter);
                assert(e.nfes@.subrange(0, j + 1 as int) =~= e.nfes@.subrange(0, j as int).push(
                    e.nfes@[j as int],
                ));
                assert(post =~= pre.push(e.nfes@[j as int].key@));
                assert(post.drop_last() =~= pre);
            }
            if !e.nfes[j].key.eq(&e.key) {
                ks.push(e.nfes[j].key.clone());
                proof {
                    assert(ks@.map_values(|s: String| s@) =~= pre.filter(fpred).push(
                        e.nfes@[j as int].key@,
                    ));
                }
            }
            j += 1;
        }
        proof {
            assert(e.nfes@.subrange(0, e.nfes@.len() as int) =~= e.nfes@);
        }
        let line = format_line(&e.key, &ks);
        lines.push(line);
        let mut k: usize = 0;
        while k < ks.len()
            invariant
                k <= ks@.len(),
                crate::aggregate::sorted_strs(all_nfes@),
                str_set(all_nfes@) == all_listed_keys(m.entries@.subrange(0, i as int)).union(
                    str_set(ks@.subrange(0, k as int)),
                ),
            decreases ks@.len() - k,
        {
            insert_str(&mut all_nfes, &ks[k]);
            proof {
                assert(ks@.subrange(0, k + 1 as int) =~= ks@.subrange(0, k as int).push(
                    ks@[k as int],
                ));
                crate::aggregate::lemma_str_set_push(ks@.subrange(0, k as int), ks@[k as int]);
                assert(all_listed_keys(m.entries@.subrange(0, i as int)).union(
                    str_set(ks@.subrange(0, k as int)),
                ).insert(ks@[k as int]@) =~= all_listed_keys(m.entries@.subrange(0, i as int)).union(
                    str_set(ks@.subrange(0, k + 1 as int)),
                ));
            }
            k += 1;
        }
        proof {
            assert(ks@.subrange(0, ks@.len() as int) =~= ks@);
            lemma_all_listed_push(m.entries@, i as int, ks@);
        }
        i += 1;
    }
    proof {
        assert(m.entries@.subrange(0, m.entries@.len() as int) =~= m.entries@);
        assert forall|p: int, q: int|
            0 <= p < q < all_nfes@.len() implies all_nfes@[p]@ != all_nfes@[q]@ by {
            if all_nfes@[p]@ == all_nfes@[q]@ {
                crate::chars::lemma_lex_lt_irrefl(all_nfes@[p]@);
            }
        }
        lemma_str_set_len(all_nfes@);
    }
    let num_ctes = lines.len();
    let num_nfes = all_nfes.len();
    Ok(Report { lines, num_ctes, num_nfes })
}

/// The set of listed keys grows entry by entry.
proof fn lemma_all_listed_push(es: Seq<CteEntry>, i: int, ks: Seq<String>)
    requires
        0 <= i < es.len(),
        ks.map_values(|s: String| s@) == listed_keys(es[i]),
    ensures
        all_listed_keys(es.subrange(0, i)).union(str_set(ks)) == all_listed_keys(
            es.subrange(0, i + 1),
        ),
{
    let l = all_listed_keys(es.subrange(0, i)).union(str_set(ks));
    let r = all_listed_keys(es.subrange(0, i + 1));
    let pre = es.subrange(0, i);
    let post = es.subrange(0, i + 1);
    assert forall|n: Seq<char>| l.contains(n) implies r.contains(n) by {
        if all_listed_keys(pre).contains(n) {
            let x = choose|x: int| 0 <= x < pre.len() && (#[trigger] listed_keys(pre[x])).contains(
                n,
            );
            assert(post[x] == pre[x]);
            assert(listed_keys(post[x]).contains(n));
        } else {
            let x = choose|x: int| 0 <= x < ks.len() && ks[x]@ == n;
            assert(ks.map_values(|s: String| s@)[x] == n);
            assert(listed_keys(es[i]).contains(n));
            assert(post[i] == es[i]);
            assert(listed_keys(post[i]).contains(n));
        }
    }
    assert forall|n: Seq<char>| r.contains(n) implies l.contains(n) by {
        let x = choose|x: int| 0 <= x < post.len() && (#[trigger] listed_keys(post[x])).contains(n);
        if x < i {
            assert(pre[x] == post[x]);
            assert(listed_keys(pre[x]).contains(n));
            assert(all_listed_keys(pre).contains(n));
        } else {
            assert(post[x] == es[i]);
            let y = choose|y: int| 0 <= y < listed_keys(es[i]).len() && listed_keys(es[i])[y] == n;
            assert(ks.map_values(|s: String| s@)[y] == n);
            assert(ks[y]@ == n);
            assert(str_set(ks).contains(n));
        }
    }
    assert(l =~= r);
}

/// Builds one report line.
fn format_line(cte: &String, ks: &Vec<String>) -> (s: String)
    ensures
        s@ == line_of(cte@, ks@.map_values(|x: String| x@)),
{
    let mut s = String::new();
    s.append("cte: ");
    s.append(cte.as_str());
    s.append(", ");
    let num = usize_to_string(ks.len());
    s.append(num.as_str());
    s.append(" nfes: [");
    let mut j: usize = 0;
    let ghost kviews = ks@.map_values(|x: String| x@);
    let mut body = String::new();
    proof {
        assert(body@ =~= joined(kviews.subrange(0, 0)));
    }
    while j < ks.len()
        invariant
            j <= ks@.len(),
            kviews == ks@.map_values(|x: String| x@),
            body@ == joined(kviews.subrange(0, j as int)),
        decreases ks@.len() - j,
    {
        if j > 0 {
            body.append(", ");
        }
        body.append(ks[j].as_str());
        proof {
            let pre = kviews.subrange(0, j as int);
            let post = kviews.subrange(0, j + 1 as int);
            assert(post.drop_last() =~= pre);
            assert(post.last() == kviews[j as int]);
            if j == 0 {
                assert(joined(post) == kviews[0]);
                assert(body@ =~= kviews[0]);
            } else {
                assert(joined(post) == joined(pre) + ", "@ + kviews[j as int]);
            }
        }
        j += 1;
    }
    proof {
        assert(kviews.subrange(0, kviews.len() as int) =~= kviews);
    }
    s.append(body.as_str());
    s.append("]");
    proof {
        assert(s@ =~= line_of(cte@, kviews));
    }
    s
}

} // verus!
