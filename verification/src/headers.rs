//! Response headers as a list of `(name, value)` pairs with the semantics of
//! setting a header: a header set under a name replaces every earlier header
//! of that name, names compared case-insensitively in ASCII.
use vstd::prelude::*;
use crate::text::{ascii_lower, ascii_lowercase, matches_at, occurs_at, pair_texts};

verus! {

/// Two header names name the same header: equal once ASCII letters are
/// lower-cased.
pub open spec fn same_name(a: Seq<char>, b: Seq<char>) -> bool {
    ascii_lower(a) == ascii_lower(b)
}

/// One of `names` names the same header as `n`.
pub open spec fn names_has(names: Seq<Seq<char>>, n: Seq<char>) -> bool {
    exists|i: int| 0 <= i < names.len() && #[trigger] same_name(names[i], n)
}

/// The headers of `h` whose names are none of `names`, in their order.
pub open spec fn without_names(h: Seq<(Seq<char>, Seq<char>)>, names: Seq<Seq<char>>) -> Seq<
    (Seq<char>, Seq<char>),
>
    decreases h.len(),
{
    if h.len() == 0 {
        Seq::empty()
    } else {
        let rest = without_names(h.drop_last(), names);
        if names_has(names, h.last().0) {
            rest
        } else {
            rest.push(h.last())
        }
    }
}

/// `h` after setting the header `p`: every header of that name is replaced.
pub open spec fn header_inserted(h: Seq<(Seq<char>, Seq<char>)>, p: (Seq<char>, Seq<char>)) -> Seq<
    (Seq<char>, Seq<char>),
> {
    without_names(h, seq![p.0]).push(p)
}

/// `h` after setting each header of `more` in turn.
pub open spec fn inserted_all(h: Seq<(Seq<char>, Seq<char>)>, more: Seq<(Seq<char>, Seq<char>)>) -> Seq<
    (Seq<char>, Seq<char>),
>
    decreases more.len(),
{
    if more.len() == 0 {
        h
    } else {
        header_inserted(inserted_all(h, more.drop_last()), more.last())
    }
}

/// The names of the headers of `h`.
pub open spec fn header_names(h: Seq<(Seq<char>, Seq<char>)>) -> Seq<Seq<char>> {
    h.map_values(|p: (Seq<char>, Seq<char>)| p.0)
}

/// No two headers of `h` share a name.
pub open spec fn distinct_names(h: Seq<(Seq<char>, Seq<char>)>) -> bool {
    forall|i: int, j: int|
        0 <= i < j < h.len() ==> !same_name(#[trigger] h[i].0, #[trigger] h[j].0)
}

proof fn lemma_has_single(n: Seq<char>, m: Seq<char>)
    ensures
        names_has(seq![n], m) <==> same_name(n, m),
{
    if same_name(n, m) {
        assert(same_name(seq![n][0], m));
    }
}

proof fn lemma_without_concat(
    a: Seq<(Seq<char>, Seq<char>)>,
    b: Seq<(Seq<char>, Seq<char>)>,
    names: Seq<Seq<char>>,
)
    ensures
        without_names(a + b, names) == without_names(a, names) + without_names(b, names),
    decreases b.len(),
{
    if b.len() == 0 {
        assert(a + b =~= a);
        assert(without_names(b, names) =~= Seq::empty());
        assert(without_names(a, names) + without_names(b, names) =~= without_names(a, names));
    } else {
        lemma_without_concat(a, b.drop_last(), names);
        assert((a + b).drop_last() =~= a + b.drop_last());
        assert((a + b).last() == b.last());
        let wa = without_names(a, names);
        let wb = without_names(b.drop_last(), names);
        if !names_has(names, b.last().0) {
            assert(wa + wb.push(b.last()) =~= (wa + wb).push(b.last()));
        }
    }
}

proof fn lemma_without_one_more(h: Seq<(Seq<char>, Seq<char>)>, names: Seq<Seq<char>>, n: Seq<char>)
    ensures
        without_names(without_names(h, names), seq![n]) == without_names(h, names.push(n)),
    decreases h.len(),
{
    if h.len() == 0 {
        assert(without_names(without_names(h, names), seq![n]) =~= Seq::empty());
    } else {
        lemma_without_one_more(h.drop_last(), names, n);
        let e = h.last().0;
        lemma_has_single(n, e);
        let big = names.push(n);
        if names_has(names, e) {
            let i = choose|i: int| 0 <= i < names.len() && #[trigger] same_name(names[i], e);
            assert(same_name(big[i], e));
        } else if same_name(n, e) {
            assert(same_name(big[names.len() as int], e));
        } else {
            assert forall|i: int| 0 <= i < big.len() implies !#[trigger] same_name(big[i], e) by {
                if i < names.len() {
                    assert(big[i] == names[i]);
                }
            }
        }
        let w = without_names(h.drop_last(), names);
        if !names_has(names, e) {
            assert(w.push(h.last()).drop_last() =~= w);
        }
    }
}

proof fn lemma_without_none(h: Seq<(Seq<char>, Seq<char>)>, n: Seq<char>)
    requires
        forall|i: int| 0 <= i < h.len() ==> !same_name(n, #[trigger] h[i].0),
    ensures
        without_names(h, seq![n]) == h,
    decreases h.len(),
{
    if h.len() == 0 {
        assert(without_names(h, seq![n]) =~= h);
    } else {
        assert forall|i: int| 0 <= i < h.drop_last().len() implies !same_name(
            n,
            #[trigger] h.drop_last()[i].0,
        ) by {
            assert(h.drop_last()[i] == h[i]);
        }
        lemma_without_none(h.drop_last(), n);
        lemma_has_single(n, h.last().0);
        assert(h.drop_last().push(h.last()) =~= h);
    }
}

proof fn lemma_without_idempotent(h: Seq<(Seq<char>, Seq<char>)>, names: Seq<Seq<char>>)
    ensures
        without_names(without_names(h, names), names) == without_names(h, names),
    decreases h.len(),
{
    if h.len() > 0 {
        lemma_without_idempotent(h.drop_last(), names);
        let w = without_names(h.drop_last(), names);
        if !names_has(names, h.last().0) {
            assert(w.push(h.last()).drop_last() =~= w);
        }
    }
}

/// Removing the names of `h` itself from `h` leaves nothing.
proof fn lemma_without_own_names(h: Seq<(Seq<char>, Seq<char>)>, names: Seq<Seq<char>>)
    requires
        forall|i: int| 0 <= i < h.len() ==> names_has(names, #[trigger] h[i].0),
    ensures
        without_names(h, names) == Seq::<(Seq<char>, Seq<char>)>::empty(),
    decreases h.len(),
{
    if h.len() > 0 {
        assert forall|i: int| 0 <= i < h.drop_last().len() implies names_has(
            names,
            #[trigger] h.drop_last()[i].0,
        ) by {
            assert(h.drop_last()[i] == h[i]);
        }
        lemma_without_own_names(h.drop_last(), names);
        assert(names_has(names, h[h.len() - 1].0));
    }
}

proof fn lemma_without_nothing(h: Seq<(Seq<char>, Seq<char>)>)
    ensures
        without_names(h, Seq::empty()) == h,
    decreases h.len(),
{
    if h.len() > 0 {
        lemma_without_nothing(h.drop_last());
        assert(h.drop_last().push(h.last()) =~= h);
    }
}

/// Setting the headers of a list whose names are distinct removes every
/// earlier header of those names and adds the list at the end.
pub proof fn lemma_inserted_distinct(h: Seq<(Seq<char>, Seq<char>)>, more: Seq<(Seq<char>, Seq<char>)>)
    requires
        distinct_names(more),
    ensures
        inserted_all(h, more) == without_names(h, header_names(more)) + more,
    decreases more.len(),
{
    if more.len() == 0 {
        assert(header_names(more) =~= Seq::empty());
        lemma_without_nothing(h);
        assert(h + more =~= h);
    } else {
        let front = more.drop_last();
        let x = more.last();
        assert(distinct_names(front)) by {
            assert forall|i: int, j: int| 0 <= i < j < front.len() implies !same_name(
                #[trigger] front[i].0,
                #[trigger] front[j].0,
            ) by {
                assert(front[i] == more[i] && front[j] == more[j]);
            }
        }
        lemma_inserted_distinct(h, front);
        let w = without_names(h, header_names(front));
        assert forall|i: int| 0 <= i < front.len() implies !same_name(x.0, #[trigger] front[i].0) by {
            assert(front[i] == more[i]);
            assert(!same_name(more[i].0, more[more.len() - 1].0));
        }
        lemma_without_none(front, x.0);
        lemma_without_concat(w, front, seq![x.0]);
        lemma_without_one_more(h, header_names(front), x.0);
        assert(header_names(front).push(x.0) =~= header_names(more));
        assert((w + front).len() >= 0);
        assert(without_names(w, seq![x.0]) + front.push(x) =~= (without_names(w, seq![x.0])
            + front).push(x));
        assert(front.push(x) =~= more);
    }
}

/// Setting the same distinct names twice: the second list replaces the
/// first entirely, whatever values either holds.
pub proof fn lemma_inserted_twice(
    h: Seq<(Seq<char>, Seq<char>)>,
    first: Seq<(Seq<char>, Seq<char>)>,
    second: Seq<(Seq<char>, Seq<char>)>,
)
    requires
        distinct_names(first),
        distinct_names(second),
        header_names(first) == header_names(second),
    ensures
        inserted_all(inserted_all(h, first), second) == inserted_all(h, second),
{
    let names = header_names(second);
    lemma_inserted_distinct(h, first);
    let mid = without_names(h, names) + first;
    lemma_inserted_distinct(mid, second);
    lemma_inserted_distinct(h, second);
    lemma_without_concat(without_names(h, names), first, names);
    lemma_without_idempotent(h, names);
    assert forall|i: int| 0 <= i < first.len() implies names_has(names, #[trigger] first[i].0) by {
        assert(header_names(first)[i] == first[i].0);
        assert(same_name(names[i], first[i].0));
    }
    lemma_without_own_names(first, names);
    assert(without_names(h, names) + Seq::<(Seq<char>, Seq<char>)>::empty() =~= without_names(
        h,
        names,
    ));
}

/// What remains after removing `names` has none of those names.
pub proof fn lemma_without_names_excludes(h: Seq<(Seq<char>, Seq<char>)>, names: Seq<Seq<char>>)
    ensures
        forall|i: int|
            0 <= i < without_names(h, names).len() ==> !names_has(
                names,
                #[trigger] without_names(h, names)[i].0,
            ),
    decreases h.len(),
{
    if h.len() > 0 {
        lemma_without_names_excludes(h.drop_last(), names);
        let w = without_names(h.drop_last(), names);
        if !names_has(names, h.last().0) {
            assert forall|i: int| 0 <= i < w.push(h.last()).len() implies !names_has(
                names,
                #[trigger] w.push(h.last())[i].0,
            ) by {
                if i < w.len() {
                    assert(w.push(h.last())[i] == w[i]);
                }
            }
        }
    }
}

/// Two names of different lengths never name the same header.
pub proof fn lemma_same_name_len(a: Seq<char>, b: Seq<char>)
    ensures
        same_name(a, b) ==> a.len() == b.len(),
{
    if same_name(a, b) {
        assert(ascii_lower(a).len() == a.len());
        assert(ascii_lower(b).len() == b.len());
    }
}

/// Setting a header whose name is new to `h` just adds it at the end.
pub proof fn lemma_inserted_new_name(h: Seq<(Seq<char>, Seq<char>)>, p: (Seq<char>, Seq<char>))
    requires
        forall|i: int| 0 <= i < h.len() ==> !same_name(p.0, #[trigger] h[i].0),
    ensures
        header_inserted(h, p) == h.push(p),
{
    lemma_without_none(h, p.0);
}

/// Whether two header names name the same header.
pub fn names_match(a: &str, b: &str) -> (res: bool)
    ensures
        res == same_name(a@, b@),
{
    let la = ascii_lowercase(a);
    let lb = ascii_lowercase(b);
    if la.len() != lb.len() {
        return false;
    }
    let r = matches_at(&la, 0, &lb);
    proof {
        if r {
            assert(la@.subrange(0, lb@.len() as int) =~= la@);
        } else {
            assert(occurs_at(la@, lb@, 0) || la@ != lb@) by {
                if la@ == lb@ {
                    assert(la@.subrange(0, lb@.len() as int) =~= la@);
                }
            }
        }
    }
    r
}

/// Sets a header: removes every header of the same name, then adds it.
pub fn insert_header(headers: &mut Vec<(String, String)>, name: &str, value: &str)
    ensures
        pair_texts(final(headers)@) == header_inserted(pair_texts(old(headers)@), (name@, value@)),
{
    let ghost hv = pair_texts(headers@);
    let mut kept: Vec<(String, String)> = Vec::new();
    let mut i: usize = 0;
    while i < headers.len()
        invariant
            i <= headers@.len(),
            headers@ == old(headers)@,
            hv == pair_texts(headers@),
            pair_texts(kept@) == without_names(hv.take(i as int), seq![name@]),
        decreases headers@.len() - i,
    {
        let ghost before = pair_texts(kept@);
        assert(hv.take(i + 1).drop_last() =~= hv.take(i as int));
        assert(hv.take(i + 1).last() == hv[i as int]);
        proof {
            lemma_has_single(name@, hv[i as int].0);
        }
        if !names_match(name, headers[i].0.as_str()) {
            let entry = (headers[i].0.clone(), headers[i].1.clone());
            kept.push(entry);
            assert(pair_texts(kept@) =~= before.push(hv[i as int]));
        } else {
            assert(pair_texts(kept@) =~= before);
        }
        i = i + 1;
    }
    assert(hv.take(headers@.len() as int) =~= hv);
    let ghost w = pair_texts(kept@);
    kept.push((name.to_string(), value.to_string()));
    assert(pair_texts(kept@) =~= w.push((name@, value@)));
    *headers = kept;
}

/// Sets each header of `more` in turn.
pub fn insert_headers(headers: &mut Vec<(String, String)>, more: &Vec<(String, String)>)
    ensures
        pair_texts(final(headers)@) == inserted_all(pair_texts(old(headers)@), pair_texts(more@)),
{
    let ghost mv = pair_texts(more@);
    let mut i: usize = 0;
    assert(mv.take(0) =~= Seq::empty());
    while i < more.len()
        invariant
            i <= more@.len(),
            mv == pair_texts(more@),
            pair_texts(headers@) == inserted_all(pair_texts(old(headers)@), mv.take(i as int)),
        decreases more@.len() - i,
    {
        insert_header(headers, more[i].0.as_str(), more[i].1.as_str());
        assert(mv.take(i + 1).drop_last() =~= mv.take(i as int));
        assert(mv.take(i + 1).last() == mv[i as int]);
        i = i + 1;
    }
    assert(mv.take(more@.len() as int) =~= mv);
}

} // verus!
