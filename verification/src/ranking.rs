//! Ranking positions by a key of a number and a text: the first positions
//! of a list in rank order, and whole lists put in rank order.
use vstd::prelude::*;
use crate::text::{
    chars_eq, lemma_text_lt_asymmetric, lemma_text_lt_total, lemma_text_lt_transitive, text_less, text_lt,
};

verus! {

/// The order keys of a list of rows, as numbers and texts.
pub open spec fn key_view(keys: Seq<(i128, Vec<char>)>) -> Seq<(int, Seq<char>)> {
    keys.map_values(|x: (i128, Vec<char>)| (x.0 as int, x.1@))
}

/// Position `i` ranks before position `j` under the keys `k`: by the
/// number, then by the text, then by position.
pub open spec fn ranks_before(k: Seq<(int, Seq<char>)>, i: int, j: int) -> bool {
    ||| k[i].0 < k[j].0
    ||| k[i].0 == k[j].0 && text_lt(k[i].1, k[j].1)
    ||| k[i].0 == k[j].0 && k[i].1 == k[j].1 && i < j
}

pub proof fn lemma_ranks_asymmetric(k: Seq<(int, Seq<char>)>, i: int, j: int)
    ensures
        ranks_before(k, i, j) ==> !ranks_before(k, j, i),
{
    lemma_text_lt_asymmetric(k[i].1, k[j].1);
    lemma_text_lt_asymmetric(k[j].1, k[i].1);
    lemma_text_lt_asymmetric(k[i].1, k[i].1);
}

pub proof fn lemma_ranks_total(k: Seq<(int, Seq<char>)>, i: int, j: int)
    ensures
        i != j ==> ranks_before(k, i, j) || ranks_before(k, j, i),
{
    lemma_text_lt_total(k[i].1, k[j].1);
}

pub proof fn lemma_ranks_transitive(k: Seq<(int, Seq<char>)>, i: int, j: int, m: int)
    requires
        ranks_before(k, i, j),
        ranks_before(k, j, m),
    ensures
        ranks_before(k, i, m),
{
    if k[i].0 == k[j].0 && k[j].0 == k[m].0 {
        if text_lt(k[i].1, k[j].1) && text_lt(k[j].1, k[m].1) {
            lemma_text_lt_transitive(k[i].1, k[j].1, k[m].1);
        }
    }
}

/// Whether position `i` ranks before position `j` (see `ranks_before`).
pub fn ranks_before_exec(keys: &Vec<(i128, Vec<char>)>, i: usize, j: usize) -> (r: bool)
    requires
        i < keys@.len(),
        j < keys@.len(),
    ensures
        r == ranks_before(key_view(keys@), i as int, j as int),
{
    let ghost k = key_view(keys@);
    assert(k[i as int] == (keys@[i as int].0 as int, keys@[i as int].1@));
    assert(k[j as int] == (keys@[j as int].0 as int, keys@[j as int].1@));
    if keys[i].0 < keys[j].0 {
        true
    } else if keys[i].0 > keys[j].0 {
        false
    } else if text_less(&keys[i].1, &keys[j].1) {
        true
    } else {
        chars_eq(&keys[i].1, &keys[j].1) && i < j
    }
}

/// `q` may follow `after`: it ranks after it, where there is one.
pub open spec fn ranks_after(k: Seq<(int, Seq<char>)>, after: Option<usize>, q: int) -> bool {
    match after {
        Some(a) => ranks_before(k, a as int, q),
        None => true,
    }
}

/// The eligible position that ranks first among those after `after`.
fn next_ranked(keys: &Vec<(i128, Vec<char>)>, eligible: &Vec<bool>, after: Option<usize>) -> (r: Option<usize>)
    requires
        keys@.len() == eligible@.len(),
        after matches Some(a) ==> a < keys@.len(),
    ensures
        match r {
            Some(q) => {
                &&& q < keys@.len()
                &&& eligible@[q as int]
                &&& ranks_after(key_view(keys@), after, q as int)
                &&& forall|j: int|
                    0 <= j < keys@.len() && eligible@[j] && ranks_after(key_view(keys@), after, j) && j != q
                        ==> ranks_before(key_view(keys@), q as int, j)
            },
            None => forall|j: int|
                0 <= j < keys@.len() && eligible@[j] ==> !ranks_after(key_view(keys@), after, j),
        },
{
    let ghost k = key_view(keys@);
    let mut best: Option<usize> = None;
    let mut j: usize = 0;
    while j < keys.len()
        invariant
            j <= keys@.len(),
            keys@.len() == eligible@.len(),
            k == key_view(keys@),
            after matches Some(a) ==> a < keys@.len(),
            match best {
                Some(q) => {
                    &&& q < j
                    &&& eligible@[q as int]
                    &&& ranks_after(k, after, q as int)
                    &&& forall|m: int| 0 <= m < j && eligible@[m] && ranks_after(k, after, m) && m != q
                        ==> ranks_before(k, q as int, m)
                },
                None => forall|m: int| 0 <= m < j && eligible@[m] ==> !ranks_after(k, after, m),
            },
        decreases keys@.len() - j,
    {
        if eligible[j] {
            let follows = match after {
                Some(a) => ranks_before_exec(keys, a, j),
                None => true,
            };
            if follows {
                match best {
                    None => {
                        best = Some(j);
                    },
                    Some(q) => {
                        if ranks_before_exec(keys, j, q) {
                            proof {
                                assert forall|m: int|
                                    0 <= m < j + 1 && eligible@[m] && ranks_after(k, after, m) && m != j
                                    implies ranks_before(k, j as int, m) by {
                                    if m != q {
                                        lemma_ranks_transitive(k, j as int, q as int, m);
                                    }
                                }
                            }
                            best = Some(j);
                        } else {
                            proof {
                                lemma_ranks_total(k, j as int, q as int);
                            }
                        }
                    },
                }
            }
        }
        j = j + 1;
    }
    best
}

/// `p` lists, in rank order, the first `limit` eligible positions (all of
/// them where there are fewer), and `more` says whether an eligible
/// position was left out.
pub open spec fn is_first_page(
    k: Seq<(int, Seq<char>)>,
    eligible: Seq<bool>,
    limit: int,
    p: Seq<usize>,
    more: bool,
) -> bool {
    &&& p.len() <= limit
    &&& forall|a: int| 0 <= a < p.len() ==> (#[trigger] p[a] as int) < k.len() && eligible[p[a] as int]
    &&& forall|a: int, b: int| 0 <= a < b < p.len() ==> ranks_before(k, p[a] as int, p[b] as int)
    &&& forall|q: usize|
        q < k.len() && eligible[q as int] && !p.contains(q) ==> p.len() == limit && ranks_before(
            k,
            p.last() as int,
            q as int,
        )
    &&& more == exists|q: usize| q < k.len() && eligible[q as int] && !p.contains(q)
}

/// The first `limit` eligible positions in rank order, and whether more
/// are eligible.
pub fn first_page(keys: &Vec<(i128, Vec<char>)>, eligible: &Vec<bool>, limit: usize) -> (r: (Vec<usize>, bool))
    requires
        keys@.len() == eligible@.len(),
        limit >= 1,
    ensures
        is_first_page(key_view(keys@), eligible@, limit as int, r.0@, r.1),
{
    let ghost k = key_view(keys@);
    assert(k.len() == keys@.len());
    let mut page: Vec<usize> = Vec::new();
    let mut last: Option<usize> = None;
    let mut done = false;
    while page.len() < limit && !done
        invariant
            keys@.len() == eligible@.len(),
            k == key_view(keys@),
            k.len() == keys@.len(),
            limit >= 1,
            page@.len() <= limit,
            last == (if page@.len() == 0 { None } else { Some(page@.last()) }),
            forall|a: int| 0 <= a < page@.len() ==> (#[trigger] page@[a] as int) < k.len() && eligible@[page@[a] as int],
            forall|a: int, b: int| 0 <= a < b < page@.len() ==> ranks_before(k, page@[a] as int, page@[b] as int),
            forall|q: usize| q < k.len() && eligible@[q as int] && !page@.contains(q) ==> ranks_after(k, last, q as int),
            done ==> forall|q: usize| q < k.len() && eligible@[q as int] ==> page@.contains(q),
        decreases limit - page@.len() + (if done { 0int } else { 1int }),
    {
        proof {
            assert(k.len() == keys@.len());
            if page@.len() > 0 {
                assert(eligible@[page@[page@.len() - 1] as int]);
            }
        }
        match next_ranked(keys, eligible, last) {
            None => {
                proof {
                    assert forall|q: usize| q < k.len() && eligible@[q as int] implies page@.contains(q) by {
                        if !page@.contains(q) {
                            assert(ranks_after(k, last, q as int));
                        }
                    }
                }
                done = true;
            },
            Some(m) => {
                let ghost before = page@;
                proof {
                    if before.len() > 0 {
                        assert(!before.contains(m)) by {
                            if before.contains(m) {
                                let a = choose|a: int| 0 <= a < before.len() && before[a] == m;
                                if a < before.len() - 1 {
                                    lemma_ranks_asymmetric(k, m as int, before.last() as int);
                                }
                                lemma_ranks_asymmetric(k, m as int, m as int);
                            }
                        }
                    }
                }
                page.push(m);
                last = Some(m);
                proof {
                    assert forall|a: int| 0 <= a < page@.len() implies (#[trigger] page@[a] as int) < k.len()
                        && eligible@[page@[a] as int] by {
                        if a < before.len() {
                            assert(page@[a] == before[a]);
                            assert(eligible@[before[a] as int]);
                        }
                    }
                    assert forall|a: int, b: int| 0 <= a < b < page@.len() implies ranks_before(
                        k,
                        page@[a] as int,
                        page@[b] as int,
                    ) by {
                        if b == page@.len() - 1 && a < before.len() - 1 {
                            lemma_ranks_transitive(k, page@[a] as int, before.last() as int, m as int);
                        }
                    }
                    assert forall|q: usize|
                        q < k.len() && eligible@[q as int] && !page@.contains(q) implies ranks_after(
                        k,
                        last,
                        q as int,
                    ) by {
                        assert(!before.contains(q)) by {
                            if before.contains(q) {
                                let a = choose|a: int| 0 <= a < before.len() && before[a] == q;
                                assert(page@[a] == q);
                            }
                        }
                        assert(q != m) by {
                            assert(page@[page@.len() - 1] == m);
                        }
                    }
                }
            },
        }
    }
    proof {
        assert(k.len() == keys@.len());
        if page@.len() > 0 {
            assert(eligible@[page@[page@.len() - 1] as int]);
        }
    }
    let more = if page.len() == limit && !done {
        next_ranked(keys, eligible, last).is_some()
    } else {
        false
    };
    proof {
        if page@.len() > 0 {
            assert forall|q: usize| q < k.len() && page@.contains(q) implies !ranks_before(
                k,
                page@.last() as int,
                q as int,
            ) by {
                let a = choose|a: int| 0 <= a < page@.len() && page@[a] == q;
                if a < page@.len() - 1 {
                    assert(ranks_before(k, page@[a] as int, page@[page@.len() - 1] as int));
                }
                lemma_ranks_asymmetric(k, q as int, page@.last() as int);
                lemma_ranks_asymmetric(k, q as int, q as int);
            }
        }
    }
    (page, more)
}



/// `p` lists every position of `k` once, in rank order.
pub open spec fn is_ranked_list(k: Seq<(int, Seq<char>)>, p: Seq<usize>) -> bool {
    &&& p.len() == k.len()
    &&& forall|q: usize| q < k.len() ==> p.contains(q)
    &&& forall|a: int| 0 <= a < p.len() ==> (#[trigger] p[a] as int) < k.len()
    &&& forall|a: int, b: int| 0 <= a < b < p.len() ==> ranks_before(k, p[a] as int, p[b] as int)
}

/// A first page of every position, as many as there are, holds each of
/// them.
proof fn lemma_full_page(k: Seq<(int, Seq<char>)>, eligible: Seq<bool>, p: Seq<usize>, more: bool)
    requires
        1 <= k.len() <= usize::MAX,
        eligible.len() == k.len(),
        forall|q: int| 0 <= q < k.len() ==> eligible[q],
        is_first_page(k, eligible, k.len() as int, p, more),
    ensures
        is_ranked_list(k, p),
{
    let n = k.len() as int;
    let ps = p.map_values(|x: usize| x as int);
    assert(ps.no_duplicates()) by {
        assert forall|a: int, b: int| 0 <= a < ps.len() && 0 <= b < ps.len() && a != b implies ps[a] != ps[b] by {
            if a < b {
                assert(ranks_before(k, p[a] as int, p[b] as int));
            } else {
                assert(ranks_before(k, p[b] as int, p[a] as int));
            }
            lemma_ranks_asymmetric(k, p[a] as int, p[a] as int);
            lemma_ranks_asymmetric(k, p[b] as int, p[b] as int);
        }
    }
    ps.unique_seq_to_set();
    vstd::seq_lib::seq_to_set_is_finite(ps);
    vstd::set_lib::lemma_int_range(0, n);
    let range = vstd::set_lib::set_int_range(0, n);
    assert forall|x: int| ps.to_set().contains(x) implies range.contains(x) by {
        let a = choose|a: int| 0 <= a < ps.len() && ps[a] == x;
        assert(eligible[p[a] as int]);
    }
    assert forall|qu: usize| qu < k.len() implies p.contains(qu) by {
        if !p.contains(qu) {
            let smaller = range.remove(qu as int);
            assert forall|x: int| ps.to_set().contains(x) implies smaller.contains(x) by {
                let a = choose|a: int| 0 <= a < ps.len() && ps[a] == x;
                assert(p[a] != qu);
            }
            vstd::set_lib::lemma_len_subset(ps.to_set(), smaller);
            assert(eligible[qu as int]);
            assert(p.len() == n);
        }
    }
    assert forall|x: int| range.contains(x) implies ps.to_set().contains(x) by {
        let qu = x as usize;
        assert(p.contains(qu));
        let a = choose|a: int| 0 <= a < p.len() && p[a] == qu;
        assert(ps[a] == x);
    }
    vstd::set_lib::lemma_len_subset(range, ps.to_set());
}

/// Every position of `keys`, in rank order.
pub fn rank_all(keys: &Vec<(i128, Vec<char>)>) -> (r: Vec<usize>)
    ensures
        is_ranked_list(key_view(keys@), r@),
{
    if keys.len() == 0 {
        return Vec::new();
    }
    let mut eligible: Vec<bool> = Vec::new();
    let mut i: usize = 0;
    while i < keys.len()
        invariant
            i <= keys@.len(),
            eligible@.len() == i,
            forall|q: int| 0 <= q < i ==> eligible@[q],
        decreases keys@.len() - i,
    {
        eligible.push(true);
        i = i + 1;
    }
    let n = keys.len();
    let (p, more) = first_page(keys, &eligible, n);
    proof {
        assert(key_view(keys@).len() == n);
        lemma_full_page(key_view(keys@), eligible@, p@, more);
    }
    p
}
} // verus!
