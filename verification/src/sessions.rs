//! Agents grouped by session: how many agents each session has, busiest session first.
use vstd::prelude::*;

verus! {

/// Number of times `key` occurs in `sv`.
pub open spec fn occurrences(sv: Seq<Seq<char>>, key: Seq<char>) -> nat
    decreases sv.len(),
{
    if sv.len() == 0 {
        0
    } else {
        occurrences(sv.drop_last(), key) + (if sv.last() == key { 1nat } else { 0nat })
    }
}

/// `a` occurs in `sv` before the first occurrence of `b`.
pub open spec fn seen_before(sv: Seq<Seq<char>>, a: Seq<char>, b: Seq<char>) -> bool {
    exists|i: int| 0 <= i < sv.len() && sv[i] == a && forall|j: int| 0 <= j <= i ==> sv[j] != b
}

/// `x` comes before `y` in the session list: more agents first, and on a tie the session
/// that shows up first among the agents.
pub open spec fn ranks_before(sv: Seq<Seq<char>>, x: (Seq<char>, nat), y: (Seq<char>, nat)) -> bool {
    x.1 > y.1 || (x.1 == y.1 && seen_before(sv, x.0, y.0))
}

/// `r` lists every session of `sv` once with its number of agents, busiest first, ties in
/// order of first appearance.
pub open spec fn counts_ok(sv: Seq<Seq<char>>, r: Seq<(Seq<char>, nat)>) -> bool {
    &&& forall|i: int| 0 <= i < r.len() ==> sv.contains(#[trigger] r[i].0) && r[i].1 == occurrences(sv, r[i].0)
    &&& forall|i: int, j: int| 0 <= i < j < r.len() ==> (#[trigger] r[i]).0 != (#[trigger] r[j]).0
    &&& forall|t: int| 0 <= t < sv.len() ==> has_key(r, #[trigger] sv[t])
    &&& forall|i: int, j: int| 0 <= i < j < r.len() ==> ranks_before(sv, #[trigger] r[i], #[trigger] r[j])
}

/// The sessions of the agents, as character sequences.
pub open spec fn session_keys(sessions: Seq<String>) -> Seq<Seq<char>> {
    sessions.map_values(|s: String| s@)
}

/// The counted sessions, as character sequences and natural numbers.
pub open spec fn counts_view(r: Seq<(String, usize)>) -> Seq<(Seq<char>, nat)> {
    r.map_values(|e: (String, usize)| (e.0@, e.1 as nat))
}

/// The session names of a count list, in order.
pub open spec fn count_keys(r: Seq<(Seq<char>, nat)>) -> Seq<Seq<char>> {
    r.map_values(|e: (Seq<char>, nat)| e.0)
}

proof fn lemma_occurrences_le(sv: Seq<Seq<char>>, key: Seq<char>)
    ensures
        occurrences(sv, key) <= sv.len(),
    decreases sv.len(),
{
    if sv.len() > 0 {
        lemma_occurrences_le(sv.drop_last(), key);
    }
}

proof fn lemma_occurrences_absent(sv: Seq<Seq<char>>, key: Seq<char>)
    requires
        !sv.contains(key),
    ensures
        occurrences(sv, key) == 0,
    decreases sv.len(),
{
    if sv.len() > 0 {
        assert(!sv.drop_last().contains(key)) by {
            if sv.drop_last().contains(key) {
                let i = choose|i: int| 0 <= i < sv.drop_last().len() && sv.drop_last()[i] == key;
                assert(sv[i] == key);
            }
        }
        lemma_occurrences_absent(sv.drop_last(), key);
    }
}

/// Two sessions of `sv` never rank before each other both ways.
proof fn lemma_ranks_asym(sv: Seq<Seq<char>>, x: (Seq<char>, nat), y: (Seq<char>, nat))
    requires
        x.0 != y.0,
        ranks_before(sv, x, y),
    ensures
        !ranks_before(sv, y, x),
{
    if x.1 == y.1 && seen_before(sv, x.0, y.0) && seen_before(sv, y.0, x.0) {
        let i = choose|i: int| 0 <= i < sv.len() && sv[i] == x.0 && forall|j: int| 0 <= j <= i ==> sv[j] != y.0;
        let k = choose|k: int| 0 <= k < sv.len() && sv[k] == y.0 && forall|j: int| 0 <= j <= k ==> sv[j] != x.0;
        if i <= k {
            assert(sv[i] != x.0);
        } else {
            assert(sv[k] != y.0);
        }
    }
}

/// A session count list is determined by the sessions: two lists that both meet
/// `counts_ok` for the same sessions are equal.
pub proof fn lemma_counts_unique(sv: Seq<Seq<char>>, r1: Seq<(Seq<char>, nat)>, r2: Seq<(Seq<char>, nat)>)
    requires
        counts_ok(sv, r1),
        counts_ok(sv, r2),
    ensures
        r1 == r2,
{
    lemma_sorted_unique(sv, r1, r2);
}

spec fn sorted_distinct(sv: Seq<Seq<char>>, r: Seq<(Seq<char>, nat)>) -> bool {
    &&& forall|i: int| 0 <= i < r.len() ==> (#[trigger] r[i]).1 == occurrences(sv, r[i].0)
    &&& forall|i: int, j: int| 0 <= i < j < r.len() ==> (#[trigger] r[i]).0 != (#[trigger] r[j]).0
    &&& forall|i: int, j: int| 0 <= i < j < r.len() ==> ranks_before(sv, #[trigger] r[i], #[trigger] r[j])
}

/// Some entry of `r` is for session `k`.
pub open spec fn has_key(r: Seq<(Seq<char>, nat)>, k: Seq<char>) -> bool {
    exists|i: int| 0 <= i < r.len() && (#[trigger] r[i]).0 == k
}

proof fn lemma_sorted_unique(sv: Seq<Seq<char>>, r1: Seq<(Seq<char>, nat)>, r2: Seq<(Seq<char>, nat)>)
    requires
        sorted_distinct(sv, r1),
        sorted_distinct(sv, r2),
        forall|k: Seq<char>| has_key(r1, k) <==> has_key(r2, k),
    ensures
        r1 == r2,
    decreases r1.len(),
{
    if r1.len() == 0 {
        if r2.len() > 0 {
            assert(has_key(r2, r2[0].0));
        }
        assert(r1 =~= r2);
    } else {
        assert(has_key(r1, r1[0].0));
        assert(r2.len() > 0);
        assert(has_key(r2, r2[0].0));
        if r1[0].0 != r2[0].0 {
            let a = choose|i: int| 0 <= i < r1.len() && (#[trigger] r1[i]).0 == r2[0].0;
            let b = choose|i: int| 0 <= i < r2.len() && (#[trigger] r2[i]).0 == r1[0].0;
            assert(a > 0);
            assert(b > 0);
            assert(ranks_before(sv, r1[0], r1[a]));
            assert(ranks_before(sv, r2[0], r2[b]));
            assert(r1[a] == r2[0]);
            assert(r2[b] == r1[0]);
            lemma_ranks_asym(sv, r1[0], r2[0]);
        }
        assert(r1[0] == r2[0]);
        let t1 = r1.drop_first();
        let t2 = r2.drop_first();
        assert forall|k: Seq<char>| has_key(t1, k) <==> has_key(t2, k) by {
            if has_key(t1, k) {
                let i = choose|i: int| 0 <= i < t1.len() && (#[trigger] t1[i]).0 == k;
                assert(r1[i + 1].0 == k);
                assert(has_key(r1, k));
                let j = choose|j: int| 0 <= j < r2.len() && (#[trigger] r2[j]).0 == k;
                assert(r1[0].0 != r1[i + 1].0);
                assert(j != 0);
                assert(t2[j - 1].0 == k);
            }
            if has_key(t2, k) {
                let i = choose|i: int| 0 <= i < t2.len() && (#[trigger] t2[i]).0 == k;
                assert(r2[i + 1].0 == k);
                assert(has_key(r2, k));
                let j = choose|j: int| 0 <= j < r1.len() && (#[trigger] r1[j]).0 == k;
                assert(r2[0].0 != r2[i + 1].0);
                assert(j != 0);
                assert(t1[j - 1].0 == k);
            }
        }
        assert forall|i: int, j: int| 0 <= i < j < t1.len() implies ranks_before(sv, #[trigger] t1[i], #[trigger] t1[j]) by {
            assert(ranks_before(sv, r1[i + 1], r1[j + 1]));
        }
        assert forall|i: int, j: int| 0 <= i < j < t1.len() implies (#[trigger] t1[i]).0 != (#[trigger] t1[j]).0 by {
            assert(r1[i + 1].0 != r1[j + 1].0);
        }
        assert forall|i: int, j: int| 0 <= i < j < t2.len() implies ranks_before(sv, #[trigger] t2[i], #[trigger] t2[j]) by {
            assert(ranks_before(sv, r2[i + 1], r2[j + 1]));
        }
        assert forall|i: int, j: int| 0 <= i < j < t2.len() implies (#[trigger] t2[i]).0 != (#[trigger] t2[j]).0 by {
            assert(r2[i + 1].0 != r2[j + 1].0);
        }
        lemma_sorted_unique(sv, t1, t2);
        assert(r1 =~= seq![r1[0]] + t1);
        assert(r2 =~= seq![r2[0]] + t2);
    }
}

/// Counts the agents of each session: each session once, with its number of agents,
/// busiest session first and sessions with equally many agents in order of first appearance.
pub fn count_sessions(sessions: &Vec<String>) -> (r: Vec<(String, usize)>)
    ensures
        counts_ok(session_keys(sessions@), counts_view(r@)),
{
    let ghost sv = session_keys(sessions@);
    let n = sessions.len();
    // First pass: sessions in order of first appearance, with their counts.
    let mut firsts: Vec<(String, usize)> = Vec::new();
    let mut j: usize = 0;
    while j < n
        invariant
            n == sessions@.len(),
            sv == session_keys(sessions@),
            j <= n,
            forall|k: int| 0 <= k < firsts@.len() ==> sv.take(j as int).contains(#[trigger] firsts@[k].0@)
                && firsts@[k].1 == occurrences(sv.take(j as int), firsts@[k].0@),
            forall|k: int, l: int| 0 <= k < l < firsts@.len() ==> (#[trigger] firsts@[k]).0@ != (
            #[trigger] firsts@[l]).0@,
            forall|t: int| #![trigger sv[t]] 0 <= t < j ==> exists|k: int| 0 <= k < firsts@.len() && (#[trigger] firsts@[k]).0@ == sv[t],
            forall|k: int, l: int| 0 <= k < l < firsts@.len() ==> seen_before(
                sv.take(j as int),
                (#[trigger] firsts@[k]).0@,
                (#[trigger] firsts@[l]).0@,
            ),
        decreases n - j,
    {
        let ghost pre = sv.take(j as int);
        let ghost post = sv.take(j + 1);
        let ghost f0 = firsts@;
        let ghost key = sv[j as int];
        proof {
            assert(post.drop_last() =~= pre);
            assert(post.last() == key);
            assert(sessions@[j as int]@ == key);
        }
        let mut k: usize = 0;
        while k < firsts.len() && !(firsts[k].0 == sessions[j])
            invariant
                firsts@ == f0,
                k <= firsts@.len(),
                j < sessions@.len(),
                forall|l: int| 0 <= l < k ==> (#[trigger] firsts@[l]).0@ != key,
                key == sessions@[j as int]@,
            decreases firsts@.len() - k,
        {
            k = k + 1;
        }
        let found = k < firsts.len();
        if found {
            let c = firsts[k].1;
            proof {
                lemma_occurrences_le(pre, key);
            }
            let name = firsts[k].0.clone();
            firsts.set(k, (name, c + 1));
            proof {
                assert forall|l: int| 0 <= l < firsts@.len() implies post.contains(#[trigger] firsts@[l].0@)
                    && firsts@[l].1 == occurrences(post, firsts@[l].0@) by {
                    assert(pre.contains(f0[l].0@));
                    let i = choose|i: int| 0 <= i < pre.len() && pre[i] == f0[l].0@;
                    assert(post[i] == f0[l].0@);
                }
                assert forall|k2: int, l: int| 0 <= k2 < l < firsts@.len() implies seen_before(
                    post,
                    (#[trigger] firsts@[k2]).0@,
                    (#[trigger] firsts@[l]).0@,
                ) by {
                    assert(seen_before(pre, f0[k2].0@, f0[l].0@));
                    let i = choose|i: int| 0 <= i < pre.len() && pre[i] == f0[k2].0@ && forall|j2: int| 0 <= j2 <= i ==> pre[j2] != f0[l].0@;
                    assert(post[i] == f0[k2].0@);
                    assert forall|j2: int| 0 <= j2 <= i implies post[j2] != f0[l].0@ by {
                        assert(post[j2] == pre[j2]);
                    }
                }
                assert forall|t: int| #![trigger sv[t]] 0 <= t < j + 1 implies exists|k2: int| 0 <= k2 < firsts@.len() && (#[trigger] firsts@[k2]).0@ == sv[t] by {
                    if t < j {
                        let k2 = choose|k2: int| 0 <= k2 < f0.len() && (#[trigger] f0[k2]).0@ == sv[t];
                        assert(firsts@[k2].0@ == sv[t]);
                    } else {
                        assert(firsts@[k as int].0@ == sv[t]);
                    }
                }
            }
        } else {
            let name = sessions[j].clone();
            firsts.push((name, 1));
            proof {
                assert(!pre.contains(key)) by {
                    if pre.contains(key) {
                        let i = choose|i: int| 0 <= i < pre.len() && pre[i] == key;
                        let k2 = choose|k2: int| 0 <= k2 < f0.len() && (#[trigger] f0[k2]).0@ == sv[i];
                        assert(f0[k2].0@ == key);
                    }
                }
                lemma_occurrences_absent(pre, key);
                assert forall|l: int| 0 <= l < firsts@.len() implies post.contains(#[trigger] firsts@[l].0@)
                    && firsts@[l].1 == occurrences(post, firsts@[l].0@) by {
                    if l < f0.len() {
                        assert(firsts@[l] == f0[l]);
                        assert(pre.contains(f0[l].0@));
                        let i = choose|i: int| 0 <= i < pre.len() && pre[i] == f0[l].0@;
                        assert(post[i] == f0[l].0@);
                    } else {
                        assert(post[j as int] == key);
                    }
                }
                assert forall|k2: int, l: int| 0 <= k2 < l < firsts@.len() implies (#[trigger] firsts@[k2]).0@ != (
                #[trigger] firsts@[l]).0@ by {
                    if l < f0.len() {
                        assert(firsts@[l] == f0[l]);
                        assert(firsts@[k2] == f0[k2]);
                    } else {
                        assert(firsts@[k2] == f0[k2]);
                    }
                }
                assert forall|k2: int, l: int| 0 <= k2 < l < firsts@.len() implies seen_before(
                    post,
                    (#[trigger] firsts@[k2]).0@,
                    (#[trigger] firsts@[l]).0@,
                ) by {
                    assert(firsts@[k2] == f0[k2]);
                    if l < f0.len() {
                        assert(firsts@[l] == f0[l]);
                        assert(seen_before(pre, f0[k2].0@, f0[l].0@));
                        let i = choose|i: int| 0 <= i < pre.len() && pre[i] == f0[k2].0@ && forall|j2: int| 0 <= j2 <= i ==> pre[j2] != f0[l].0@;
                        assert(post[i] == f0[k2].0@);
                        assert forall|j2: int| 0 <= j2 <= i implies post[j2] != f0[l].0@ by {
                            assert(post[j2] == pre[j2]);
                        }
                    } else {
                        assert(pre.contains(f0[k2].0@));
                        let i = choose|i: int| 0 <= i < pre.len() && pre[i] == f0[k2].0@;
                        assert(post[i] == f0[k2].0@);
                        assert forall|j2: int| 0 <= j2 <= i implies post[j2] != key by {
                            assert(post[j2] == pre[j2]);
                        }
                    }
                }
                assert forall|t: int| #![trigger sv[t]] 0 <= t < j + 1 implies exists|k2: int| 0 <= k2 < firsts@.len() && (#[trigger] firsts@[k2]).0@ == sv[t] by {
                    if t < j {
                        let k2 = choose|k2: int| 0 <= k2 < f0.len() && (#[trigger] f0[k2]).0@ == sv[t];
                        assert(firsts@[k2] == f0[k2]);
                    } else {
                        assert(firsts@[f0.len() as int].0@ == sv[t]);
                    }
                }
            }
        }
        j = j + 1;
    }
    proof {
        assert(sv.take(n as int) =~= sv);
    }
    // Second pass: insert each session behind all sessions with at least as many agents.
    let ghost fv = counts_view(firsts@);
    proof {
        reveal(firsts_ok);
        assert(sv.len() == n);
        assert forall|k: int| 0 <= k < fv.len() implies sv.contains(#[trigger] fv[k].0) && fv[k].1 == occurrences(sv, fv[k].0) by {
            assert(fv[k].0 == firsts@[k].0@);
        }
        assert forall|k: int, l: int| 0 <= k < l < fv.len() implies (#[trigger] fv[k]).0 != (#[trigger] fv[l]).0 && seen_before(sv, fv[k].0, fv[l].0) by {
            assert(fv[k].0 == firsts@[k].0@);
            assert(fv[l].0 == firsts@[l].0@);
        }
        assert forall|t: int| 0 <= t < sv.len() implies has_key(fv, #[trigger] sv[t]) by {
            let k = choose|k: int| 0 <= k < firsts@.len() && (#[trigger] firsts@[k]).0@ == sv[t];
            assert(fv[k].0 == sv[t]);
        }
        assert(firsts_ok(sv, fv));
    }
    let mut out: Vec<(String, usize)> = Vec::new();
    let mut i: usize = 0;
    let m = firsts.len();
    let ghost mut idx: Seq<int> = Seq::empty();
    let ghost mut inv: Seq<int> = Seq::empty();
    proof {
        reveal(placed_ok);
        assert(counts_view(out@) =~= Seq::<(Seq<char>, nat)>::empty());
    }
    while i < m
        invariant
            m == firsts@.len(),
            fv == counts_view(firsts@),
            i <= m,
            firsts_ok(sv, fv),
            placed_ok(sv, fv, counts_view(out@), i as int, idx, inv),
        decreases m - i,
    {
        let ghost o0 = counts_view(out@);
        let e = (firsts[i].0.clone(), firsts[i].1);
        let mut p: usize = 0;
        while p < out.len() && out[p].1 >= e.1
            invariant
                counts_view(out@) == o0,
                p <= out@.len(),
                i < fv.len(),
                e.1 == fv[i as int].1,
                forall|q: int| 0 <= q < p ==> (#[trigger] o0[q]).1 >= fv[i as int].1,
            decreases out@.len() - p,
        {
            p = p + 1;
        }
        out.insert(p, e);
        proof {
            assert(counts_view(out@) =~= o0.insert(p as int, fv[i as int]));
            lemma_insert_step(sv, fv, o0, i as int, p as int, idx, inv);
            idx = idx.insert(p as int, i as int);
            inv = shift_inv(inv, i as int, p as int);
        }
        i = i + 1;
    }
    proof {
        reveal(firsts_ok);
        reveal(placed_ok);
        let rv = counts_view(out@);
        assert forall|q: int| 0 <= q < rv.len() implies sv.contains(#[trigger] rv[q].0) && rv[q].1 == occurrences(sv, rv[q].0) by {
            assert(rv[q] == fv[idx[q]]);
        }
        assert forall|t: int| 0 <= t < sv.len() implies has_key(rv, #[trigger] sv[t]) by {
            assert(has_key(fv, sv[t]));
            let k = choose|k: int| 0 <= k < fv.len() && (#[trigger] fv[k]).0 == sv[t];
            let q = inv[k];
            assert(0 <= q < rv.len());
            assert(rv[q] == fv[k]);
            assert(rv[q].0 == sv[t]);
        }
        assert forall|q: int, s2: int| 0 <= q < s2 < rv.len() implies (#[trigger] rv[q]).0 != (#[trigger] rv[s2]).0 by {}
        assert forall|q: int, s2: int| 0 <= q < s2 < rv.len() implies ranks_before(sv, #[trigger] rv[q], #[trigger] rv[s2]) by {}
        assert(counts_ok(sv, rv));
    }
    out
}

/// Facts of the sessions in order of first appearance.
#[verifier::opaque]
spec fn firsts_ok(sv: Seq<Seq<char>>, fv: Seq<(Seq<char>, nat)>) -> bool {
    &&& forall|k: int| 0 <= k < fv.len() ==> sv.contains(#[trigger] fv[k].0) && fv[k].1 == occurrences(sv, fv[k].0)
    &&& forall|k: int, l: int| 0 <= k < l < fv.len() ==> (#[trigger] fv[k]).0 != (#[trigger] fv[l]).0 && seen_before(sv, fv[k].0, fv[l].0)
    &&& forall|t: int| 0 <= t < sv.len() ==> has_key(fv, #[trigger] sv[t])
}

/// `ov` holds the first `i` entries of `fv`, in ranking order; `idx` says where each entry
/// of `ov` comes from in `fv`, and `inv` where each of the first `i` entries of `fv` went.
#[verifier::opaque]
spec fn placed_ok(sv: Seq<Seq<char>>, fv: Seq<(Seq<char>, nat)>, ov: Seq<(Seq<char>, nat)>, i: int, idx: Seq<int>, inv: Seq<int>) -> bool {
    &&& ov.len() == i
    &&& idx.len() == i
    &&& inv.len() == i
    &&& forall|q: int| 0 <= q < i ==> 0 <= #[trigger] idx[q] < i && ov[q] == fv[idx[q]]
    &&& forall|k: int| 0 <= k < i ==> 0 <= #[trigger] inv[k] < i && ov[inv[k]] == fv[k]
    &&& forall|q: int, s: int| 0 <= q < s < ov.len() ==> (#[trigger] ov[q]).0 != (#[trigger] ov[s]).0
    &&& forall|q: int, s: int| 0 <= q < s < ov.len() ==> ranks_before(sv, #[trigger] ov[q], #[trigger] ov[s])
}

spec fn shift_inv(inv: Seq<int>, i: int, p: int) -> Seq<int> {
    Seq::new((i + 1) as nat, |k: int| if k == i { p } else if inv[k] < p { inv[k] } else { inv[k] + 1 })
}

proof fn lemma_insert_order(sv: Seq<Seq<char>>, fv: Seq<(Seq<char>, nat)>, o0: Seq<(Seq<char>, nat)>, i: int, p: int, idx: Seq<int>)
    requires
        0 <= i < fv.len(),
        forall|k: int, l: int| 0 <= k < l < fv.len() ==> (#[trigger] fv[k]).0 != (#[trigger] fv[l]).0 && seen_before(sv, fv[k].0, fv[l].0),
        o0.len() == i,
        idx.len() == i,
        forall|q: int| 0 <= q < i ==> 0 <= #[trigger] idx[q] < i && o0[q] == fv[idx[q]],
        forall|q: int, s: int| 0 <= q < s < o0.len() ==> (#[trigger] o0[q]).0 != (#[trigger] o0[s]).0,
        forall|q: int, s: int| 0 <= q < s < o0.len() ==> ranks_before(sv, #[trigger] o0[q], #[trigger] o0[s]),
        0 <= p <= o0.len(),
        forall|q: int| 0 <= q < p ==> (#[trigger] o0[q]).1 >= fv[i].1,
        p < o0.len() ==> o0[p].1 < fv[i].1,
    ensures
        forall|q: int, s: int| 0 <= q < s < o0.len() + 1 ==> (#[trigger] o0.insert(p, fv[i])[q]).0 != (#[trigger] o0.insert(p, fv[i])[s]).0,
        forall|q: int, s: int| 0 <= q < s < o0.len() + 1 ==> ranks_before(sv, #[trigger] o0.insert(p, fv[i])[q], #[trigger] o0.insert(p, fv[i])[s]),
{
    let ov = o0.insert(p, fv[i]);
    let ev = fv[i];
    assert forall|q: int, s: int| 0 <= q < s < o0.len() + 1 implies (#[trigger] ov[q]).0 != (#[trigger] ov[s]).0 && ranks_before(sv, ov[q], ov[s]) by {
        let oq = if q < p { q } else { q - 1 };
        let os = if s < p { s } else { s - 1 };
        if q != p && s != p {
            assert(ov[q] == o0[oq]);
            assert(ov[s] == o0[os]);
        } else if q == p {
            assert(ov[s] == o0[os]);
            let k = idx[os];
            assert(o0[os] == fv[k]);
            assert(fv[k].0 != ev.0);
            if os > p {
                assert(ranks_before(sv, o0[p], o0[os]));
            }
        } else {
            assert(ov[q] == o0[oq]);
            let k = idx[oq];
            assert(o0[oq] == fv[k]);
            assert(fv[k].0 != ev.0);
            assert(seen_before(sv, fv[k].0, ev.0));
        }
    }
}

proof fn lemma_insert_step(sv: Seq<Seq<char>>, fv: Seq<(Seq<char>, nat)>, o0: Seq<(Seq<char>, nat)>, i: int, p: int, idx: Seq<int>, inv: Seq<int>)
    requires
        firsts_ok(sv, fv),
        0 <= i < fv.len(),
        placed_ok(sv, fv, o0, i, idx, inv),
        0 <= p <= o0.len(),
        forall|q: int| 0 <= q < p ==> (#[trigger] o0[q]).1 >= fv[i].1,
        p < o0.len() ==> o0[p].1 < fv[i].1,
    ensures
        placed_ok(sv, fv, o0.insert(p, fv[i]), i + 1, idx.insert(p, i), shift_inv(inv, i, p)),
{
    reveal(firsts_ok);
    reveal(placed_ok);
    lemma_insert_order(sv, fv, o0, i, p, idx);
    let ov = o0.insert(p, fv[i]);
    let idx2 = idx.insert(p, i);
    let inv2 = shift_inv(inv, i, p);
    assert forall|q: int| 0 <= q < i + 1 implies 0 <= #[trigger] idx2[q] < i + 1 && ov[q] == fv[idx2[q]] by {
        if q < p {
            assert(idx2[q] == idx[q]);
        } else if q > p {
            assert(idx2[q] == idx[q - 1]);
        }
    }
    assert forall|k: int| 0 <= k < i + 1 implies 0 <= #[trigger] inv2[k] < i + 1 && ov[inv2[k]] == fv[k] by {
        if k < i {
            assert(o0[inv[k]] == fv[k]);
            if inv[k] < p {
                assert(ov[inv[k]] == o0[inv[k]]);
            } else {
                assert(ov[inv[k] + 1] == o0[inv[k]]);
            }
        }
    }
}

} // verus!
