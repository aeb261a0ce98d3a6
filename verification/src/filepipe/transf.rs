//! The file operations that turn the current state of a repository into a
//! goal state: which files to keep, delete, move, copy, and which contents
//! have to come over the network.

use vstd::prelude::*;
use vstd::multiset::Multiset;
use crate::aio::{parse_hash, hash_str_to_u128, split_dir_name, extract_path_dir_and_name};
use crate::key_gen::{is_random_key, generate_random_string};
use crate::text::{push_char, chars_of, string_of_range};
use crate::filepipe::RepositoryFile;

verus! {

broadcast use vstd::seq_lib::group_to_multiset_ensures, vstd::multiset::group_multiset_axioms;

/// A repository state as the computation sees it: each file's path and the
/// hex form of its content hash.
pub open spec fn state_model(v: Seq<(String, RepositoryFile)>) -> Seq<(Seq<char>, Seq<char>)> {
    v.map_values(|e: (String, RepositoryFile)| (e.0@, e.1.hash@))
}

/// The paths of a state, in order.
pub open spec fn state_keys(st: Seq<(Seq<char>, Seq<char>)>) -> Seq<Seq<char>> {
    st.map_values(|e: (Seq<char>, Seq<char>)| e.0)
}

/// Every hash of the state is well formed.
pub open spec fn hashes_valid(st: Seq<(Seq<char>, Seq<char>)>) -> bool {
    forall|i: int| 0 <= i < st.len() ==> (#[trigger] parse_hash(st[i].1)) is Some
}

/// Some file of the state has content hash `h`.
pub open spec fn has_hash(st: Seq<(Seq<char>, Seq<char>)>, h: u128) -> bool {
    exists|i: int| 0 <= i < st.len() && #[trigger] parse_hash(st[i].1) == Some(h)
}

/// The content hash of the file at `p` (the last one with that path).
pub open spec fn path_hash(st: Seq<(Seq<char>, Seq<char>)>, p: Seq<char>) -> Option<u128>
    decreases st.len(),
{
    if st.len() == 0 {
        None
    } else if st.last().0 == p {
        parse_hash(st.last().1)
    } else {
        path_hash(st.drop_last(), p)
    }
}

/// The paths, in order, of the files whose hash satisfies `f`.
pub open spec fn keys_with(st: Seq<(Seq<char>, Seq<char>)>, f: spec_fn(u128) -> bool) -> Seq<Seq<char>>
    decreases st.len(),
{
    if st.len() == 0 {
        Seq::empty()
    } else {
        let r = keys_with(st.drop_last(), f);
        match parse_hash(st.last().1) {
            Some(h) => if f(h) {
                r.push(st.last().0)
            } else {
                r
            },
            None => r,
        }
    }
}

/// The paths, in order, of the files with content hash `h`.
pub open spec fn paths_with_hash(st: Seq<(Seq<char>, Seq<char>)>, h: u128) -> Seq<Seq<char>>
    decreases st.len(),
{
    if st.len() == 0 {
        Seq::empty()
    } else {
        let r = paths_with_hash(st.drop_last(), h);
        if parse_hash(st.last().1) == Some(h) {
            r.push(st.last().0)
        } else {
            r
        }
    }
}

/// `paths_with_hash` is `keys_with` for the test "equals `h`".
pub proof fn lemma_paths_with_hash_eq(st: Seq<(Seq<char>, Seq<char>)>, h: u128, f: spec_fn(u128) -> bool)
    requires
        forall|x: u128| #[trigger] f(x) == (x == h),
    ensures
        paths_with_hash(st, h) == keys_with(st, f),
    decreases st.len(),
{
    if st.len() > 0 {
        lemma_paths_with_hash_eq(st.drop_last(), h, f);
    }
}

pub proof fn lemma_path_hash_some(st: Seq<(Seq<char>, Seq<char>)>, p: Seq<char>)
    ensures
        path_hash(st, p) is Some ==> state_keys(st).contains(p),
        !state_keys(st).contains(p) ==> path_hash(st, p) is None,
        hashes_valid(st) && state_keys(st).contains(p) ==> path_hash(st, p) is Some,
    decreases st.len(),
{
    if st.len() > 0 {
        let d = st.drop_last();
        lemma_path_hash_some(d, p);
        assert(state_keys(st) =~= state_keys(d).push(st.last().0));
        lemma_push_contains(state_keys(d), st.last().0, p);
        if hashes_valid(st) {
            assert(hashes_valid(d));
            assert(parse_hash(st[st.len() - 1].1) is Some);
        }
    }
}

proof fn lemma_path_hash_at(st: Seq<(Seq<char>, Seq<char>)>, i: int)
    requires
        state_keys(st).no_duplicates(),
        0 <= i < st.len(),
    ensures
        path_hash(st, st[i].0) == parse_hash(st[i].1),
    decreases st.len(),
{
    let d = st.drop_last();
    if i < st.len() - 1 {
        assert(state_keys(st)[i] == st[i].0);
        assert(state_keys(st)[st.len() - 1] == st.last().0);
        assert(state_keys(d) =~= state_keys(st).drop_last());
        lemma_path_hash_at(d, i);
    }
}

/// A path of the state is in `keys_with(st, f)` exactly when its hash satisfies `f`.
pub proof fn lemma_keys_with_contains(st: Seq<(Seq<char>, Seq<char>)>, f: spec_fn(u128) -> bool, p: Seq<char>)
    requires
        state_keys(st).no_duplicates(),
    ensures
        keys_with(st, f).contains(p) <==> (path_hash(st, p) matches Some(h) && f(h)),
    decreases st.len(),
{
    if st.len() > 0 {
        let d = st.drop_last();
        assert(state_keys(d) =~= state_keys(st).drop_last());
        lemma_keys_with_contains(d, f, p);
        lemma_push_contains(keys_with(d, f), st.last().0, p);
        if st.last().0 == p {
            assert(state_keys(st)[st.len() - 1] == p);
            assert(!state_keys(d).contains(p));
            lemma_path_hash_some(d, p);
        }
    }
}

pub proof fn lemma_keys_with_no_dup(st: Seq<(Seq<char>, Seq<char>)>, f: spec_fn(u128) -> bool)
    requires
        state_keys(st).no_duplicates(),
    ensures
        keys_with(st, f).no_duplicates(),
    decreases st.len(),
{
    if st.len() > 0 {
        let d = st.drop_last();
        assert(state_keys(d) =~= state_keys(st).drop_last());
        lemma_keys_with_no_dup(d, f);
        let r = keys_with(d, f);
        if keys_with(st, f) != r {
            assert(state_keys(st)[st.len() - 1] == st.last().0);
            if r.contains(st.last().0) {
                lemma_keys_with_contains(d, f, st.last().0);
                lemma_path_hash_some(d, st.last().0);
            }
        }
    }
}

/// Splitting a hash filter into two disjoint ones splits the paths.
pub proof fn lemma_keys_with_split(
    st: Seq<(Seq<char>, Seq<char>)>,
    f: spec_fn(u128) -> bool,
    g: spec_fn(u128) -> bool,
    fg: spec_fn(u128) -> bool,
)
    requires
        forall|x: u128| !(#[trigger] f(x) && g(x)),
        forall|x: u128| #[trigger] fg(x) == (f(x) || g(x)),
    ensures
        keys_with(st, fg).to_multiset() =~= keys_with(st, f).to_multiset().add(keys_with(st, g).to_multiset()),
    decreases st.len(),
{
    if st.len() > 0 {
        lemma_keys_with_split(st.drop_last(), f, g, fg);
    }
}

/// With every hash well formed and accepted, the paths with such hashes are all the paths.
pub proof fn lemma_keys_with_all(st: Seq<(Seq<char>, Seq<char>)>, f: spec_fn(u128) -> bool)
    requires
        hashes_valid(st),
        forall|i: int| 0 <= i < st.len() ==> f(#[trigger] parse_hash(st[i].1).unwrap()),
    ensures
        keys_with(st, f) == state_keys(st),
    decreases st.len(),
{
    if st.len() > 0 {
        let d = st.drop_last();
        assert(hashes_valid(d));
        assert(parse_hash(st[st.len() - 1].1) is Some);
        assert(f(parse_hash(st[st.len() - 1].1).unwrap()));
        assert forall|i: int| 0 <= i < d.len() implies f(#[trigger] parse_hash(d[i].1).unwrap()) by {
            assert(parse_hash(st[i].1) == parse_hash(d[i].1));
        }
        lemma_keys_with_all(d, f);
        assert(state_keys(st) =~= state_keys(d).push(st.last().0));
    }
}

pub proof fn lemma_keys_with_ext(st: Seq<(Seq<char>, Seq<char>)>, f: spec_fn(u128) -> bool, g: spec_fn(u128) -> bool)
    requires
        forall|x: u128| #[trigger] f(x) == g(x),
    ensures
        keys_with(st, f) == keys_with(st, g),
    decreases st.len(),
{
    if st.len() > 0 {
        lemma_keys_with_ext(st.drop_last(), f, g);
    }
}

pub proof fn lemma_push_contains<A>(s: Seq<A>, x: A, p: A)
    ensures
        s.push(x).contains(p) <==> (s.contains(p) || x == p),
{
    if s.contains(p) {
        let j = choose|j: int| 0 <= j < s.len() && s[j] == p;
        assert(s.push(x)[j] == p);
    }
    if x == p {
        assert(s.push(x)[s.len() as int] == p);
    }
    if s.push(x).contains(p) {
        let j = choose|j: int| 0 <= j < s.len() + 1 && s.push(x)[j] == p;
        if j < s.len() {
            assert(s[j] == p);
        }
    }
}

pub proof fn lemma_push_no_dup<A>(s: Seq<A>, x: A)
    requires
        s.no_duplicates(),
        !s.contains(x),
    ensures
        s.push(x).no_duplicates(),
{
    assert forall|i: int, j: int| 0 <= i < s.len() + 1 && 0 <= j < s.len() + 1 && i != j implies s.push(x)[i] != s.push(x)[j] by {
        if i == s.len() {
            assert(s[j] == s.push(x)[j]);
        } else if j == s.len() {
            assert(s[i] == s.push(x)[i]);
        }
    }
}

/// Two duplicate-free sequences with the same elements have the same multiset.
pub proof fn lemma_same_elements_multiset<A>(a: Seq<A>, b: Seq<A>)
    requires
        a.no_duplicates(),
        b.no_duplicates(),
        forall|x: A| a.contains(x) <==> b.contains(x),
    ensures
        a.to_multiset() =~= b.to_multiset(),
{
    a.lemma_multiset_has_no_duplicates();
    b.lemma_multiset_has_no_duplicates();
    assert forall|x: A| a.to_multiset().count(x) == b.to_multiset().count(x) by {
        if a.contains(x) {
            assert(a.to_multiset().contains(x));
            assert(b.to_multiset().contains(x));
        }
    }
}

/// Whether `v` holds a string equal to `s`.
pub fn contains_str(v: &Vec<String>, s: &String) -> (r: bool)
    ensures
        r == v.deep_view().contains(s@),
{
    let mut i: usize = 0;
    while i < v.len()
        invariant
            i <= v.len(),
            forall|j: int| 0 <= j < i ==> v.deep_view()[j] != s@,
        decreases v.len() - i,
    {
        if v[i] == *s {
            assert(v.deep_view()[i as int] == s@);
            return true;
        }
        i = i + 1;
    }
    false
}

/// A copy operation: the file it copies from, where that file is renamed to
/// (if anywhere), and where copies of it go.
pub type CopyModel = (Seq<char>, (Option<Seq<char>>, Seq<Seq<char>>));

pub open spec fn opt_seq<A>(o: Option<A>) -> Seq<A> {
    match o {
        Some(x) => seq![x],
        None => Seq::empty(),
    }
}

/// The goal paths a copy operation produces: the rename target, then the copies.
pub open spec fn copy_goal_side(c: CopyModel) -> Seq<Seq<char>> {
    opt_seq(c.1.0) + c.1.1
}

/// The current path a copy operation uses up: its origin, when the origin is renamed.
pub open spec fn copy_cur_side(c: CopyModel) -> Seq<Seq<char>> {
    if c.1.0 is Some {
        seq![c.0]
    } else {
        Seq::empty()
    }
}

/// The moves' sources.
pub open spec fn move_sources(m: Seq<(Seq<char>, Seq<char>)>) -> Seq<Seq<char>> {
    m.map_values(|x: (Seq<char>, Seq<char>)| x.0)
}

/// The moves' destinations.
pub open spec fn move_targets(m: Seq<(Seq<char>, Seq<char>)>) -> Seq<Seq<char>> {
    m.map_values(|x: (Seq<char>, Seq<char>)| x.1)
}

/// The plan for the files that share one content hash: `g` are the goal paths
/// with that hash, `c` the current ones.
pub open spec fn group_plan_ok(
    g: Seq<Seq<char>>,
    c: Seq<Seq<char>>,
    keep: Seq<Seq<char>>,
    delete: Seq<Seq<char>>,
    moves: Seq<(Seq<char>, Seq<char>)>,
    copy: Option<CopyModel>,
    transfer: Option<Seq<Seq<char>>>,
) -> bool {
    if c.len() == 0 {
        &&& transfer == Some(g)
        &&& keep.len() == 0 && delete.len() == 0 && moves.len() == 0 && copy is None
    } else {
        &&& transfer is None
        &&& keep.no_duplicates()
        &&& forall|p: Seq<char>| #[trigger] keep.contains(p) <==> (g.contains(p) && c.contains(p))
        &&& (keep + move_targets(moves) + opt_seq(copy).map_values(|x: CopyModel| copy_goal_side(x)).flatten()).to_multiset()
            =~= g.to_multiset()
        &&& (keep + delete + move_sources(moves) + opt_seq(copy).map_values(|x: CopyModel| copy_cur_side(x)).flatten()).to_multiset()
            =~= c.to_multiset()
        &&& (g.len() < c.len() <==> copy is None)
        &&& (delete.len() > 0 ==> copy is None)
        &&& forall|i: int| 0 <= i < moves.len() ==> c.contains(#[trigger] moves[i].0) && g.contains(moves[i].1)
        &&& copy matches Some(cp) ==> {
            &&& c.contains(cp.0)
            &&& (cp.1.0 is None ==> keep.contains(cp.0))
            &&& (cp.1.0 matches Some(r) ==> keep.len() == 0 && g.contains(r))
            &&& forall|j: int| 0 <= j < cp.1.1.len() ==> g.contains(#[trigger] cp.1.1[j])
        }
    }
}

struct HashGroupPlan {
    keep: Vec<String>,
    delete: Vec<String>,
    moves: Vec<(String, String)>,
    copy: Option<(String, (Option<String>, Vec<String>))>,
    transfer: Option<Vec<String>>,
}

fn clone_strings(v: &Vec<String>) -> (r: Vec<String>)
    ensures
        r.deep_view() == v.deep_view(),
{
    let mut r: Vec<String> = Vec::new();
    let mut i: usize = 0;
    while i < v.len()
        invariant
            i <= v.len(),
            r.deep_view() == v.deep_view().take(i as int),
        decreases v.len() - i,
    {
        let ghost old_r = r.deep_view();
        r.push(v[i].clone());
        assert(r.deep_view() =~= old_r.push(v.deep_view()[i as int]));
        i = i + 1;
        assert(r.deep_view() =~= v.deep_view().take(i as int));
    }
    assert(v.deep_view().take(v.len() as int) =~= v.deep_view());
    r
}

proof fn lemma_flatten_single<A>(x: Seq<A>)
    ensures
        seq![x].flatten() == x,
{
    let s = seq![x];
    assert(s.drop_first() =~= Seq::<Seq<A>>::empty());
    assert(s.drop_first().flatten() =~= Seq::<A>::empty());
    assert(s.first() == x);
    assert(x + Seq::<A>::empty() =~= x);
}

/// Plans the operations for the files that share one content hash.
fn plan_hash_group(g: &Vec<String>, c: &Vec<String>) -> (r: HashGroupPlan)
    requires
        g.deep_view().no_duplicates(),
        c.deep_view().no_duplicates(),
        g.len() > 0,
    ensures
        group_plan_ok(
            g.deep_view(),
            c.deep_view(),
            r.keep.deep_view(),
            r.delete.deep_view(),
            r.moves.deep_view(),
            r.copy.deep_view(),
            r.transfer.deep_view(),
        ),
{
    let ghost gv = g.deep_view();
    let ghost cv = c.deep_view();
    if c.len() == 0 {
        let t = clone_strings(g);
        return HashGroupPlan { keep: Vec::new(), delete: Vec::new(), moves: Vec::new(), copy: None, transfer: Some(t) };
    }
    // goal paths split into those also current (kept) and the others
    let mut keep: Vec<String> = Vec::new();
    let mut g_ex: Vec<String> = Vec::new();
    let mut i: usize = 0;
    while i < g.len()
        invariant
            i <= g.len(),
            gv == g.deep_view(),
            cv == c.deep_view(),
            gv.no_duplicates(),
            (keep.deep_view() + g_ex.deep_view()).to_multiset() =~= gv.take(i as int).to_multiset(),
            forall|p: Seq<char>| #[trigger] keep.deep_view().contains(p) <==> (gv.take(i as int).contains(p) && cv.contains(p)),
            forall|p: Seq<char>| #[trigger] g_ex.deep_view().contains(p) <==> (gv.take(i as int).contains(p) && !cv.contains(p)),
            keep.deep_view().no_duplicates(),
            g_ex.deep_view().no_duplicates(),
        decreases g.len() - i,
    {
        let p = g[i].clone();
        let ghost pv = p@;
        proof {
            assert(gv.take(i + 1) =~= gv.take(i as int).push(pv));
            lemma_push_contains(gv.take(i as int), pv, pv);
            assert(!gv.take(i as int).contains(pv)) by {
                if gv.take(i as int).contains(pv) {
                    let j = choose|j: int| 0 <= j < i && gv.take(i as int)[j] == pv;
                    assert(gv[j] == gv[i as int]);
                }
            }
        }
        if contains_str(c, &p) {
            let ghost old_k = keep.deep_view();
            keep.push(p);
            proof {
                assert(keep.deep_view() =~= old_k.push(pv));
                lemma_push_no_dup(old_k, pv);
                assert forall|q: Seq<char>| #[trigger] keep.deep_view().contains(q) <==> (gv.take(i + 1).contains(q) && cv.contains(q)) by {
                    lemma_push_contains(old_k, pv, q);
                    lemma_push_contains(gv.take(i as int), pv, q);
                }
                assert((keep.deep_view() + g_ex.deep_view()) =~= (old_k + g_ex.deep_view()).insert(old_k.len() as int, pv));
                assert forall|q: Seq<char>| #[trigger] g_ex.deep_view().contains(q) <==> (gv.take(i + 1).contains(q) && !cv.contains(q)) by {
                    lemma_push_contains(gv.take(i as int), pv, q);
                }
            }
        } else {
            let ghost old_x = g_ex.deep_view();
            g_ex.push(p);
            proof {
                assert(g_ex.deep_view() =~= old_x.push(pv));
                lemma_push_no_dup(old_x, pv);
                assert forall|q: Seq<char>| #[trigger] g_ex.deep_view().contains(q) <==> (gv.take(i + 1).contains(q) && !cv.contains(q)) by {
                    lemma_push_contains(old_x, pv, q);
                    lemma_push_contains(gv.take(i as int), pv, q);
                }
                assert((keep.deep_view() + g_ex.deep_view()) =~= (keep.deep_view() + old_x).push(pv));
                assert forall|q: Seq<char>| #[trigger] keep.deep_view().contains(q) <==> (gv.take(i + 1).contains(q) && cv.contains(q)) by {
                    lemma_push_contains(gv.take(i as int), pv, q);
                }
            }
        }
        i = i + 1;
    }
    assert(gv.take(g.len() as int) =~= gv);
    // current paths that are not goal paths
    let mut c_ex: Vec<String> = Vec::new();
    let ghost mut c_in: Seq<Seq<char>> = Seq::empty();
    let mut i: usize = 0;
    while i < c.len()
        invariant
            i <= c.len(),
            gv == g.deep_view(),
            cv == c.deep_view(),
            cv.no_duplicates(),
            (c_in + c_ex.deep_view()).to_multiset() =~= cv.take(i as int).to_multiset(),
            forall|p: Seq<char>| #[trigger] c_in.contains(p) <==> (cv.take(i as int).contains(p) && gv.contains(p)),
            forall|p: Seq<char>| #[trigger] c_ex.deep_view().contains(p) <==> (cv.take(i as int).contains(p) && !gv.contains(p)),
            c_in.no_duplicates(),
            c_ex.deep_view().no_duplicates(),
        decreases c.len() - i,
    {
        let p = c[i].clone();
        let ghost pv = p@;
        proof {
            assert(cv.take(i + 1) =~= cv.take(i as int).push(pv));
            assert(!cv.take(i as int).contains(pv)) by {
                if cv.take(i as int).contains(pv) {
                    let j = choose|j: int| 0 <= j < i && cv.take(i as int)[j] == pv;
                    assert(cv[j] == cv[i as int]);
                }
            }
        }
        if contains_str(g, &p) {
            let ghost old_k = c_in;
            proof {
                c_in = c_in.push(pv);
                lemma_push_no_dup(old_k, pv);
                assert forall|q: Seq<char>| #[trigger] c_in.contains(q) <==> (cv.take(i + 1).contains(q) && gv.contains(q)) by {
                    lemma_push_contains(old_k, pv, q);
                    lemma_push_contains(cv.take(i as int), pv, q);
                }
                assert((c_in + c_ex.deep_view()) =~= (old_k + c_ex.deep_view()).insert(old_k.len() as int, pv));
                assert forall|q: Seq<char>| #[trigger] c_ex.deep_view().contains(q) <==> (cv.take(i + 1).contains(q) && !gv.contains(q)) by {
                    lemma_push_contains(cv.take(i as int), pv, q);
                }
                lemma_push_contains(old_k, pv, pv);
            }
        } else {
            let ghost old_x = c_ex.deep_view();
            c_ex.push(p);
            proof {
                assert(c_ex.deep_view() =~= old_x.push(pv));
                lemma_push_no_dup(old_x, pv);
                assert forall|q: Seq<char>| #[trigger] c_ex.deep_view().contains(q) <==> (cv.take(i + 1).contains(q) && !gv.contains(q)) by {
                    lemma_push_contains(old_x, pv, q);
                    lemma_push_contains(cv.take(i as int), pv, q);
                }
                assert((c_in + c_ex.deep_view()) =~= (c_in + old_x).push(pv));
                assert forall|q: Seq<char>| #[trigger] c_in.contains(q) <==> (cv.take(i + 1).contains(q) && gv.contains(q)) by {
                    lemma_push_contains(cv.take(i as int), pv, q);
                }
            }
        }
        i = i + 1;
    }
    assert(cv.take(c.len() as int) =~= cv);
    let ghost kv = keep.deep_view();
    let ghost gx = g_ex.deep_view();
    let ghost cx = c_ex.deep_view();
    proof {
        lemma_same_elements_multiset(c_in, kv);
        assert((kv + gx).to_multiset().len() == gv.len());
        assert((c_in + cx).to_multiset().len() == cv.len());
        assert(c_in.to_multiset().len() == kv.len());
        assert(kv.len() + gx.len() == gv.len());
        assert(kv.len() + cx.len() == cv.len());
        // the current side: kept paths and current-only paths
        vstd::seq_lib::lemma_multiset_commutative(c_in, cx);
        vstd::seq_lib::lemma_multiset_commutative(kv, cx);
        assert((kv + cx).to_multiset() =~= cv.to_multiset());
    }
    let mut moves: Vec<(String, String)> = Vec::new();
    let mut delete: Vec<String> = Vec::new();
    if g.len() < c.len() {
        let mut k: usize = 0;
        while k < c_ex.len()
            invariant
                k <= c_ex.len() == cx.len(),
                gx.len() < cx.len(),
                gx == g_ex.deep_view(),
                cx == c_ex.deep_view(),
                moves.len() == if k < gx.len() { k as int } else { gx.len() as int },
                k <= gx.len() ==> delete.len() == 0,
                k > gx.len() ==> delete.deep_view() == cx.subrange(gx.len() as int, k as int),
                forall|j: int| 0 <= j < moves.len() ==> #[trigger] moves.deep_view()[j] == (cx[j], gx[j]),
            decreases c_ex.len() - k,
        {
            if k < g_ex.len() {
                let ghost old_m = moves.deep_view();
                moves.push((c_ex[k].clone(), g_ex[k].clone()));
                assert(moves.deep_view() =~= old_m.push((cx[k as int], gx[k as int])));
            } else {
                let ghost old_d = delete.deep_view();
                delete.push(c_ex[k].clone());
                proof {
                    if k == gx.len() {
                        assert(delete.deep_view() =~= cx.subrange(gx.len() as int, k + 1));
                    } else {
                        assert(delete.deep_view() =~= cx.subrange(gx.len() as int, k + 1));
                    }
                }
            }
            k = k + 1;
        }
        proof {
            let mv = moves.deep_view();
            let dv = delete.deep_view();
            assert(move_targets(mv) =~= gx);
            assert(move_sources(mv) =~= cx.take(gx.len() as int));
            assert(cx =~= move_sources(mv) + dv);
            assert(opt_seq::<CopyModel>(None).map_values(|x: CopyModel| copy_goal_side(x)).flatten() =~= Seq::<Seq<char>>::empty());
            assert(opt_seq::<CopyModel>(None).map_values(|x: CopyModel| copy_cur_side(x)).flatten() =~= Seq::<Seq<char>>::empty());
            assert(kv + move_targets(mv) + Seq::<Seq<char>>::empty() =~= kv + gx);
            assert(kv + dv + move_sources(mv) + Seq::<Seq<char>>::empty() =~= kv + dv + move_sources(mv));
            assert(kv + (move_sources(mv) + dv) =~= kv + cx);
            assert((kv + dv) + move_sources(mv) =~= kv + (dv + move_sources(mv)));
            vstd::seq_lib::lemma_multiset_commutative(kv, move_sources(mv) + dv);
            vstd::seq_lib::lemma_multiset_commutative(kv + dv, move_sources(mv));
            vstd::seq_lib::lemma_multiset_commutative(kv, dv);
            vstd::seq_lib::lemma_multiset_commutative(move_sources(mv), dv);
            assert forall|j: int| 0 <= j < mv.len() implies cv.contains(#[trigger] mv[j].0) && gv.contains(mv[j].1) by {
                assert(cx.contains(cx[j]));
                assert(gx.contains(gx[j]));
            }
            assert(dv.len() > 0);
        }
        return HashGroupPlan { keep, delete, moves, copy: None, transfer: None };
    }
    let origin: String;
    let rename: Option<String>;
    let start: usize;
    if keep.len() > 0 {
        origin = keep[0].clone();
        rename = None;
        start = 0;
    } else {
        origin = c_ex[0].clone();
        rename = Some(g_ex[0].clone());
        start = 1;
    }
    let mut targets: Vec<String> = Vec::new();
    let mut k: usize = start;
    while k < g_ex.len()
        invariant
            start <= k <= g_ex.len() == gx.len(),
            start <= cx.len() <= gx.len(),
            gx == g_ex.deep_view(),
            cx == c_ex.deep_view(),
            k <= cx.len() ==> (moves.len() == k - start && targets.len() == 0),
            k > cx.len() ==> (moves.len() == cx.len() - start && targets.deep_view() == gx.subrange(cx.len() as int, k as int)),
            forall|j: int| 0 <= j < moves.len() ==> #[trigger] moves.deep_view()[j] == (cx[j + start], gx[j + start]),
        decreases g_ex.len() - k,
    {
        if k < c_ex.len() {
            let ghost old_m = moves.deep_view();
            moves.push((c_ex[k].clone(), g_ex[k].clone()));
            assert(moves.deep_view() =~= old_m.push((cx[k as int], gx[k as int])));
        } else {
            targets.push(g_ex[k].clone());
            proof {
                assert(targets.deep_view() =~= gx.subrange(cx.len() as int, k + 1));
            }
        }
        k = k + 1;
    }
    let copy = Some((origin, (rename, targets)));
    proof {
        let mv = moves.deep_view();
        let tv = targets.deep_view();
        let cp = copy.deep_view().unwrap();
        assert(opt_seq(copy.deep_view()) =~= seq![cp]);
        assert(opt_seq(copy.deep_view()).map_values(|x: CopyModel| copy_goal_side(x)) =~= seq![copy_goal_side(cp)]);
        assert(opt_seq(copy.deep_view()).map_values(|x: CopyModel| copy_cur_side(x)) =~= seq![copy_cur_side(cp)]);
        lemma_flatten_single(copy_goal_side(cp));
        lemma_flatten_single(copy_cur_side(cp));
        if cx.len() == start {
            assert(tv =~= gx.subrange(start as int, gx.len() as int));
        }
        assert(move_targets(mv) =~= gx.subrange(start as int, cx.len() as int));
        assert(move_sources(mv) =~= cx.subrange(start as int, cx.len() as int));
        assert(tv =~= gx.subrange(cx.len() as int, gx.len() as int));
        if start == 0 {
            assert(kv.contains(kv[0]));
            assert(move_targets(mv) + copy_goal_side(cp) =~= gx);
            assert(move_sources(mv) + copy_cur_side(cp) =~= cx);
            assert(kv + move_targets(mv) + copy_goal_side(cp) =~= kv + gx);
            assert(kv + Seq::<Seq<char>>::empty() + move_sources(mv) + copy_cur_side(cp) =~= kv + cx);
        } else {
            assert(kv =~= Seq::<Seq<char>>::empty());
            assert(cp.0 == cx[0]);
            assert(cx.contains(cx[0]));
            assert(gx.contains(gx[0]));
            assert(copy_goal_side(cp) =~= seq![gx[0]] + tv);
            assert(seq![gx[0]] + (move_targets(mv) + tv) =~= gx);
            assert(seq![cx[0]] + move_sources(mv) =~= cx);
            vstd::seq_lib::lemma_multiset_commutative(move_targets(mv), seq![gx[0]] + tv);
            vstd::seq_lib::lemma_multiset_commutative(seq![gx[0]], move_targets(mv) + tv);
            vstd::seq_lib::lemma_multiset_commutative(move_targets(mv), tv);
            vstd::seq_lib::lemma_multiset_commutative(seq![gx[0]], tv);
            assert(kv + move_targets(mv) + copy_goal_side(cp) =~= move_targets(mv) + (seq![gx[0]] + tv));
            vstd::seq_lib::lemma_multiset_commutative(move_sources(mv), seq![cx[0]]);
            vstd::seq_lib::lemma_multiset_commutative(seq![cx[0]], move_sources(mv));
            assert(kv + Seq::<Seq<char>>::empty() + move_sources(mv) + copy_cur_side(cp) =~= move_sources(mv) + seq![cx[0]]);
        }
        vstd::seq_lib::lemma_multiset_commutative(kv, gx);
        vstd::seq_lib::lemma_multiset_commutative(kv, cx);
        assert forall|j: int| 0 <= j < mv.len() implies cv.contains(#[trigger] mv[j].0) && gv.contains(mv[j].1) by {
            assert(cx.contains(cx[j + start]));
            assert(gx.contains(gx[j + start]));
        }
        assert forall|j: int| 0 <= j < tv.len() implies gv.contains(#[trigger] tv[j]) by {
            assert(gx.contains(gx[j + cx.len()]));
        }
    }
    HashGroupPlan { keep, delete, moves, copy, transfer: None }
}

/// The file operations that turn the current state into the goal state.
/// Paths are repository-relative.
#[derive(Debug)]
pub struct FileTranformations {
    /// Current files to remove.
    pub to_delete: Vec<String>,
    /// Files that already hold their goal content.
    pub to_keep: Vec<String>,
    /// Copy operations: origin, the path the origin is renamed to (if any),
    /// and the paths that receive copies.
    pub to_copy: Vec<(String, (Option<String>, Vec<String>))>,
    /// Renames: from, to.
    pub to_move: Vec<(String, String)>,
    /// Contents that must be fetched, by hash, with the paths that receive them.
    pub to_transfer: Vec<(u128, Vec<String>)>,
    /// Destinations that are still in use when they would be written, with the
    /// temporary path used in their place.
    pub temp_paths: Vec<(String, String)>,
}

/// Why the transformations could not be computed.
#[derive(Clone, Copy, Debug, PartialEq, Eq, Structural)]
pub enum FileProcessError {
    /// A hash of either state is not the hex form of 16 bytes.
    HashConversionError,
    /// No unused temporary path was found.
    TempPathUnavailable,
}

/// The operations before temporary paths are put in.
pub struct PlanModel {
    pub keep: Seq<Seq<char>>,
    pub delete: Seq<Seq<char>>,
    pub moves: Seq<(Seq<char>, Seq<char>)>,
    pub copies: Seq<CopyModel>,
    pub transfer: Seq<(u128, Seq<Seq<char>>)>,
}

impl FileTranformations {
    pub open spec fn plan_view(&self) -> PlanModel {
        PlanModel {
            keep: self.to_keep.deep_view(),
            delete: self.to_delete.deep_view(),
            moves: self.to_move.deep_view(),
            copies: self.to_copy.deep_view(),
            transfer: self.to_transfer.deep_view(),
        }
    }
}

/// The current paths the operations account for: kept, deleted, moved away,
/// or renamed by a copy operation.
pub open spec fn current_slots(p: PlanModel) -> Seq<Seq<char>> {
    p.keep + p.delete + move_sources(p.moves) + p.copies.map_values(|x: CopyModel| copy_cur_side(x)).flatten()
}

/// The goal paths the operations produce: kept, fetched, moved in, or written
/// by a copy operation.
pub open spec fn goal_slots(p: PlanModel) -> Seq<Seq<char>> {
    p.keep + p.transfer.map_values(|t: (u128, Seq<Seq<char>>)| t.1).flatten() + move_targets(p.moves)
        + p.copies.map_values(|x: CopyModel| copy_goal_side(x)).flatten()
}

/// What the operations are, for a current state `cur` and a goal state `goal`:
/// every current path is accounted for once and every goal path produced once;
/// files already in place are kept; each operation joins paths with the same
/// content hash; within a hash, renames are used before copies and deletions,
/// and contents are fetched only when no current file has them.
pub open spec fn plan_ok(cur: Seq<(Seq<char>, Seq<char>)>, goal: Seq<(Seq<char>, Seq<char>)>, p: PlanModel) -> bool {
    &&& current_slots(p).to_multiset() =~= state_keys(cur).to_multiset()
    &&& goal_slots(p).to_multiset() =~= state_keys(goal).to_multiset()
    &&& forall|i: int| 0 <= i < p.keep.len() ==> (#[trigger] path_hash(cur, p.keep[i])) is Some
        && path_hash(cur, p.keep[i]) == path_hash(goal, p.keep[i])
    &&& forall|q: Seq<char>| (#[trigger] path_hash(cur, q)) is Some && path_hash(cur, q) == path_hash(goal, q)
        ==> p.keep.contains(q)
    &&& forall|i: int| 0 <= i < p.moves.len() ==> (#[trigger] path_hash(cur, p.moves[i].0)) is Some
        && path_hash(cur, p.moves[i].0) == path_hash(goal, p.moves[i].1)
    &&& forall|i: int| 0 <= i < p.copies.len() ==> #[trigger] copy_ok(cur, goal, p.keep, p.copies[i])
    &&& forall|i: int, j: int| 0 <= i < p.copies.len() && 0 <= j < p.copies.len() && i != j
        ==> path_hash(cur, #[trigger] p.copies[i].0) != path_hash(cur, #[trigger] p.copies[j].0)
    &&& forall|h: u128| #[trigger] has_copy_for(cur, p.copies, h) <==> copy_needed(cur, goal, h)
    &&& forall|i: int| 0 <= i < p.transfer.len() ==> #[trigger] transfer_ok(cur, goal, p.transfer[i])
    &&& forall|i: int, j: int| 0 <= i < p.transfer.len() && 0 <= j < p.transfer.len() && i != j
        ==> (#[trigger] p.transfer[i]).0 != (#[trigger] p.transfer[j]).0
    &&& forall|h: u128| has_hash(goal, h) && !has_hash(cur, h)
        ==> exists|i: int| 0 <= i < p.transfer.len() && (#[trigger] p.transfer[i]).0 == h
    &&& forall|i: int| 0 <= i < p.delete.len() ==> #[trigger] delete_ok(cur, goal, p.delete[i])
}

/// A deleted file is a current file whose content the goal holds nowhere, or
/// holds fewer times than the current state.
pub open spec fn delete_ok(cur: Seq<(Seq<char>, Seq<char>)>, goal: Seq<(Seq<char>, Seq<char>)>, d: Seq<char>) -> bool {
    match path_hash(cur, d) {
        Some(h) => has_hash(goal, h) ==> paths_with_hash(goal, h).len() < paths_with_hash(cur, h).len(),
        None => false,
    }
}

/// Some copy operation starts from a current file with hash `h`.
pub open spec fn has_copy_for(cur: Seq<(Seq<char>, Seq<char>)>, copies: Seq<CopyModel>, h: u128) -> bool {
    exists|i: int| 0 <= i < copies.len() && #[trigger] path_hash(cur, copies[i].0) == Some(h)
}

/// A hash gets a copy operation when both states hold it and the goal holds it
/// at least as often.
pub open spec fn copy_needed(cur: Seq<(Seq<char>, Seq<char>)>, goal: Seq<(Seq<char>, Seq<char>)>, h: u128) -> bool {
    has_hash(goal, h) && has_hash(cur, h) && paths_with_hash(goal, h).len() >= paths_with_hash(cur, h).len()
}

/// A copy operation: the origin is a current file; a copy operation without a
/// rename starts from a kept file; one with a rename exists only when no file of
/// that hash is kept; all its targets are goal paths of the origin's hash.
pub open spec fn copy_ok(
    cur: Seq<(Seq<char>, Seq<char>)>,
    goal: Seq<(Seq<char>, Seq<char>)>,
    keep: Seq<Seq<char>>,
    c: CopyModel,
) -> bool {
    &&& path_hash(cur, c.0) matches Some(h)
    &&& (c.1.0 is None ==> keep.contains(c.0))
    &&& (c.1.0 matches Some(r) ==> path_hash(goal, r) == Some(h)
        && forall|j: int| 0 <= j < keep.len() ==> path_hash(cur, #[trigger] keep[j]) != Some(h))
    &&& forall|j: int| 0 <= j < c.1.1.len() ==> path_hash(goal, #[trigger] c.1.1[j]) == Some(h)
}

/// A transfer: a hash that only the goal holds, with all goal paths that hold it.
pub open spec fn transfer_ok(
    cur: Seq<(Seq<char>, Seq<char>)>,
    goal: Seq<(Seq<char>, Seq<char>)>,
    t: (u128, Seq<Seq<char>>),
) -> bool {
    &&& has_hash(goal, t.0)
    &&& !has_hash(cur, t.0)
    &&& t.1 == paths_with_hash(goal, t.0)
}

pub proof fn lemma_keys_with_nonempty(st: Seq<(Seq<char>, Seq<char>)>, h: u128)
    ensures
        paths_with_hash(st, h).len() > 0 <==> has_hash(st, h),
    decreases st.len(),
{
    if st.len() > 0 {
        let d = st.drop_last();
        lemma_keys_with_nonempty(d, h);
        if has_hash(d, h) {
            let i = choose|i: int| 0 <= i < d.len() && parse_hash(d[i].1) == Some(h);
            assert(parse_hash(st[i].1) == Some(h));
        }
        if has_hash(st, h) && !has_hash(d, h) {
            let i = choose|i: int| 0 <= i < st.len() && parse_hash(st[i].1) == Some(h);
            if i < d.len() {
                assert(parse_hash(d[i].1) == Some(h));
            }
        }
        if parse_hash(st.last().1) == Some(h) {
            assert(parse_hash(st[st.len() - 1].1) == Some(h));
        }
    }
}

/// The hashes of a state, or `None` when one is malformed.
fn parse_hashes(v: &Vec<(String, RepositoryFile)>) -> (r: Option<Vec<u128>>)
    ensures
        match r {
            Some(hs) => hashes_valid(state_model(v@)) && hs.len() == v.len()
                && forall|i: int| 0 <= i < v.len() ==> parse_hash(#[trigger] state_model(v@)[i].1) == Some(hs[i]),
            None => !hashes_valid(state_model(v@)),
        },
{
    let ghost st = state_model(v@);
    let mut hs: Vec<u128> = Vec::new();
    let mut i: usize = 0;
    while i < v.len()
        invariant
            i <= v.len(),
            st == state_model(v@),
            hs.len() == i,
            forall|j: int| 0 <= j < i ==> parse_hash(#[trigger] st[j].1) == Some(hs[j]),
        decreases v.len() - i,
    {
        assert(st[i as int].1 == v@[i as int].1.hash@);
        match hash_str_to_u128(v[i].1.hash.as_str()) {
            Ok(h) => {
                hs.push(h);
            },
            Err(_) => {
                assert(parse_hash(st[i as int].1) is None);
                return None;
            },
        }
        i = i + 1;
    }
    Some(hs)
}

fn contains_u128(v: &Vec<u128>, x: u128) -> (r: bool)
    ensures
        r == v@.contains(x),
{
    let mut i: usize = 0;
    while i < v.len()
        invariant
            i <= v.len(),
            forall|j: int| 0 <= j < i ==> v@[j] != x,
        decreases v.len() - i,
    {
        if v[i] == x {
            assert(v@[i as int] == x);
            return true;
        }
        i = i + 1;
    }
    false
}

/// The distinct hashes of a state, in order of first appearance.
fn distinct_hashes(hs: &Vec<u128>) -> (r: Vec<u128>)
    ensures
        r@.no_duplicates(),
        forall|h: u128| #[trigger] r@.contains(h) <==> hs@.contains(h),
{
    let mut r: Vec<u128> = Vec::new();
    let mut i: usize = 0;
    while i < hs.len()
        invariant
            i <= hs.len(),
            r@.no_duplicates(),
            forall|h: u128| #[trigger] r@.contains(h) <==> hs@.take(i as int).contains(h),
        decreases hs.len() - i,
    {
        let h = hs[i];
        proof {
            assert(hs@.take(i + 1) =~= hs@.take(i as int).push(h));
        }
        if !contains_u128(&r, h) {
            proof {
                lemma_push_no_dup(r@, h);
            }
            let ghost old_r = r@;
            r.push(h);
            proof {
                assert forall|x: u128| #[trigger] r@.contains(x) <==> hs@.take(i + 1).contains(x) by {
                    lemma_push_contains(old_r, h, x);
                    lemma_push_contains(hs@.take(i as int), h, x);
                }
            }
        } else {
            proof {
                assert forall|x: u128| #[trigger] r@.contains(x) <==> hs@.take(i + 1).contains(x) by {
                    lemma_push_contains(hs@.take(i as int), h, x);
                }
            }
        }
        i = i + 1;
    }
    assert(hs@.take(hs.len() as int) =~= hs@);
    r
}

/// The paths of the files with hash `h`, in order.
fn paths_with(v: &Vec<(String, RepositoryFile)>, hs: &Vec<u128>, h: u128) -> (r: Vec<String>)
    requires
        hs.len() == v.len(),
        forall|i: int| 0 <= i < v.len() ==> parse_hash(#[trigger] state_model(v@)[i].1) == Some(hs[i]),
    ensures
        r.deep_view() == paths_with_hash(state_model(v@), h),
{
    let ghost st = state_model(v@);
    let mut r: Vec<String> = Vec::new();
    let mut i: usize = 0;
    while i < v.len()
        invariant
            i <= v.len() == hs.len(),
            st == state_model(v@),
            forall|j: int| 0 <= j < v.len() ==> parse_hash(#[trigger] st[j].1) == Some(hs[j]),
            r.deep_view() == paths_with_hash(st.take(i as int), h),
        decreases v.len() - i,
    {
        let ghost pre = st.take(i as int);
        proof {
            assert(st.take(i + 1).drop_last() =~= pre);
            assert(st.take(i + 1).last() == st[i as int]);
            assert(parse_hash(st[i as int].1) == Some(hs[i as int]));
        }
        if hs[i] == h {
            let ghost old_r = r.deep_view();
            r.push(v[i].0.clone());
            assert(r.deep_view() =~= old_r.push(st[i as int].0));
        }
        i = i + 1;
    }
    assert(st.take(v.len() as int) =~= st);
    r
}

pub proof fn lemma_has_hash_cached(st: Seq<(Seq<char>, Seq<char>)>, hs: Seq<u128>, h: u128)
    requires
        hs.len() == st.len(),
        forall|i: int| 0 <= i < st.len() ==> parse_hash(#[trigger] st[i].1) == Some(hs[i]),
    ensures
        has_hash(st, h) <==> hs.contains(h),
{
    if has_hash(st, h) {
        let i = choose|i: int| 0 <= i < st.len() && parse_hash(st[i].1) == Some(h);
        assert(hs[i] == h);
    }
    if hs.contains(h) {
        let i = choose|i: int| 0 <= i < hs.len() && hs[i] == h;
        assert(parse_hash(st[i].1) == Some(h));
    }
}

pub proof fn lemma_path_hash_has_hash(st: Seq<(Seq<char>, Seq<char>)>, q: Seq<char>)
    ensures
        path_hash(st, q) matches Some(h) ==> has_hash(st, h),
    decreases st.len(),
{
    if st.len() > 0 {
        let d = st.drop_last();
        lemma_path_hash_has_hash(d, q);
        if st.last().0 == q {
            if let Some(h) = path_hash(st, q) {
                assert(parse_hash(st[st.len() - 1].1) == Some(h));
            }
        } else if let Some(h) = path_hash(d, q) {
            let i = choose|i: int| 0 <= i < d.len() && parse_hash(d[i].1) == Some(h);
            assert(parse_hash(st[i].1) == Some(h));
        }
    }
}

pub proof fn lemma_keys_with_none(st: Seq<(Seq<char>, Seq<char>)>, f: spec_fn(u128) -> bool)
    requires
        forall|x: u128| !#[trigger] f(x),
    ensures
        keys_with(st, f) == Seq::<Seq<char>>::empty(),
    decreases st.len(),
{
    if st.len() > 0 {
        lemma_keys_with_none(st.drop_last(), f);
    }
}

pub proof fn lemma_concat_contains<A>(a: Seq<A>, b: Seq<A>, x: A)
    ensures
        (a + b).contains(x) <==> (a.contains(x) || b.contains(x)),
{
    if a.contains(x) {
        let i = choose|i: int| 0 <= i < a.len() && a[i] == x;
        assert((a + b)[i] == x);
    }
    if b.contains(x) {
        let i = choose|i: int| 0 <= i < b.len() && b[i] == x;
        assert((a + b)[a.len() + i] == x);
    }
    if (a + b).contains(x) {
        let i = choose|i: int| 0 <= i < a.len() + b.len() && (a + b)[i] == x;
        if i < a.len() {
            assert(a[i] == x);
        } else {
            assert(b[i - a.len()] == x);
        }
    }
}

/// `q` has the same hash, one of `done`, in both states.
pub open spec fn kept_in(cur: Seq<(Seq<char>, Seq<char>)>, goal: Seq<(Seq<char>, Seq<char>)>, done: Seq<u128>, q: Seq<char>) -> bool {
    match path_hash(cur, q) {
        Some(h) => done.contains(h) && path_hash(goal, q) == Some(h),
        None => false,
    }
}

/// The invariant of the planning loop, after the hashes in `done` were planned.
pub open spec fn partial_plan_ok(
    cur: Seq<(Seq<char>, Seq<char>)>,
    goal: Seq<(Seq<char>, Seq<char>)>,
    p: PlanModel,
    done: Seq<u128>,
) -> bool {
    &&& current_slots(p).to_multiset() =~= keys_with(cur, |x: u128| !has_hash(goal, x) || done.contains(x)).to_multiset()
    &&& goal_slots(p).to_multiset() =~= keys_with(goal, |x: u128| done.contains(x)).to_multiset()
    &&& forall|i: int| 0 <= i < p.keep.len() ==> #[trigger] kept_in(cur, goal, done, p.keep[i])
    &&& forall|q: Seq<char>| #[trigger] kept_in(cur, goal, done, q) ==> p.keep.contains(q)
    &&& forall|i: int| 0 <= i < p.moves.len() ==> (#[trigger] path_hash(cur, p.moves[i].0)) is Some
        && path_hash(cur, p.moves[i].0) == path_hash(goal, p.moves[i].1)
    &&& forall|i: int| 0 <= i < p.copies.len() ==> #[trigger] copy_ok(cur, goal, p.keep, p.copies[i])
        && done.contains(path_hash(cur, p.copies[i].0).unwrap())
    &&& forall|i: int, j: int| 0 <= i < p.copies.len() && 0 <= j < p.copies.len() && i != j
        ==> path_hash(cur, #[trigger] p.copies[i].0) != path_hash(cur, #[trigger] p.copies[j].0)
    &&& forall|h: u128| #[trigger] has_copy_for(cur, p.copies, h) <==> (done.contains(h) && copy_needed(cur, goal, h))
    &&& forall|i: int| 0 <= i < p.transfer.len() ==> #[trigger] transfer_ok(cur, goal, p.transfer[i])
        && done.contains(p.transfer[i].0)
    &&& forall|i: int, j: int| 0 <= i < p.transfer.len() && 0 <= j < p.transfer.len() && i != j
        ==> (#[trigger] p.transfer[i]).0 != (#[trigger] p.transfer[j]).0
    &&& forall|h: u128| done.contains(h) && has_hash(goal, h) && !has_hash(cur, h)
        ==> exists|i: int| 0 <= i < p.transfer.len() && (#[trigger] p.transfer[i]).0 == h
    &&& forall|i: int| 0 <= i < p.delete.len() ==> #[trigger] delete_ok(cur, goal, p.delete[i])
}

/// The plan with one hash group's operations added.
pub open spec fn add_group(
    p: PlanModel,
    h: u128,
    keep: Seq<Seq<char>>,
    delete: Seq<Seq<char>>,
    moves: Seq<(Seq<char>, Seq<char>)>,
    copy: Option<CopyModel>,
    transfer: Option<Seq<Seq<char>>>,
) -> PlanModel {
    PlanModel {
        keep: p.keep + keep,
        delete: p.delete + delete,
        moves: p.moves + moves,
        copies: p.copies + opt_seq(copy),
        transfer: p.transfer + opt_seq(transfer).map_values(|t: Seq<Seq<char>>| (h, t)),
    }
}

proof fn lemma_map_flatten_concat<A, B>(a: Seq<A>, b: Seq<A>, f: spec_fn(A) -> Seq<B>)
    ensures
        (a + b).map_values(f).flatten() =~= a.map_values(f).flatten() + b.map_values(f).flatten(),
{
    assert((a + b).map_values(f) =~= a.map_values(f) + b.map_values(f));
    vstd::seq_lib::lemma_flatten_concat(a.map_values(f), b.map_values(f));
}

/// Adding a hash group keeps the account of current and goal paths.
proof fn lemma_add_group_slots(
    cur: Seq<(Seq<char>, Seq<char>)>,
    goal: Seq<(Seq<char>, Seq<char>)>,
    p: PlanModel,
    done: Seq<u128>,
    h: u128,
    keep: Seq<Seq<char>>,
    delete: Seq<Seq<char>>,
    moves: Seq<(Seq<char>, Seq<char>)>,
    copy: Option<CopyModel>,
    transfer: Option<Seq<Seq<char>>>,
)
    requires
        current_slots(p).to_multiset() =~= keys_with(cur, |x: u128| !has_hash(goal, x) || done.contains(x)).to_multiset(),
        goal_slots(p).to_multiset() =~= keys_with(goal, |x: u128| done.contains(x)).to_multiset(),
        !done.contains(h),
        has_hash(goal, h),
        group_plan_ok(paths_with_hash(goal, h), paths_with_hash(cur, h), keep, delete, moves, copy, transfer),
    ensures
        ({
            let q = add_group(p, h, keep, delete, moves, copy, transfer);
            let d2 = done.push(h);
            &&& current_slots(q).to_multiset() =~= keys_with(cur, |x: u128| !has_hash(goal, x) || d2.contains(x)).to_multiset()
            &&& goal_slots(q).to_multiset() =~= keys_with(goal, |x: u128| d2.contains(x)).to_multiset()
        }),
{
    broadcast use vstd::seq_lib::lemma_multiset_commutative;

    let q = add_group(p, h, keep, delete, moves, copy, transfer);
    let d2 = done.push(h);
    let g = paths_with_hash(goal, h);
    let c = paths_with_hash(cur, h);
    assert forall|x: u128| #[trigger] d2.contains(x) == (done.contains(x) || x == h) by {
        lemma_push_contains(done, h, x);
    }
    let fc_old = |x: u128| !has_hash(goal, x) || done.contains(x);
    let fc_new = |x: u128| !has_hash(goal, x) || d2.contains(x);
    let fg_old = |x: u128| done.contains(x);
    let fg_new = |x: u128| d2.contains(x);
    let is_h = |x: u128| x == h;
    lemma_keys_with_split(cur, fc_old, is_h, fc_new);
    lemma_keys_with_split(goal, fg_old, is_h, fg_new);
    lemma_paths_with_hash_eq(cur, h, is_h);
    lemma_paths_with_hash_eq(goal, h, is_h);
    assert(keys_with(cur, is_h) == c);
    assert(keys_with(goal, is_h) == g);
    let fcur = |x: CopyModel| copy_cur_side(x);
    let fgoal = |x: CopyModel| copy_goal_side(x);
    let ft = |t: (u128, Seq<Seq<char>>)| t.1;
    lemma_map_flatten_concat(p.copies, opt_seq(copy), fcur);
    lemma_map_flatten_concat(p.copies, opt_seq(copy), fgoal);
    let tnew = opt_seq(transfer).map_values(|t: Seq<Seq<char>>| (h, t));
    lemma_map_flatten_concat(p.transfer, tnew, ft);
    assert(tnew.map_values(ft) =~= opt_seq(transfer));
    if let Some(t) = transfer {
        lemma_flatten_single(t);
    } else {
        assert(opt_seq(transfer).flatten() =~= Seq::<Seq<char>>::empty());
    }
    assert(move_sources(p.moves + moves) =~= move_sources(p.moves) + move_sources(moves));
    assert(move_targets(p.moves + moves) =~= move_targets(p.moves) + move_targets(moves));
    let ccur = p.copies.map_values(fcur).flatten();
    let ncur = opt_seq(copy).map_values(fcur).flatten();
    let cgoal = p.copies.map_values(fgoal).flatten();
    let ngoal = opt_seq(copy).map_values(fgoal).flatten();
    let tgoal = p.transfer.map_values(ft).flatten();
    assert(current_slots(q) =~= (p.keep + keep) + (p.delete + delete) + (move_sources(p.moves) + move_sources(moves)) + (ccur + ncur));
    assert(current_slots(q).to_multiset() =~= current_slots(p).to_multiset().add(
        (keep + delete + move_sources(moves) + ncur).to_multiset()));
    if c.len() == 0 {
        assert(keep.len() == 0 && delete.len() == 0 && moves.len() == 0);
        assert(opt_seq(copy) =~= Seq::<CopyModel>::empty());
        assert(ngoal =~= Seq::<Seq<char>>::empty());
        assert(ncur =~= Seq::<Seq<char>>::empty());
        assert(keep + delete + move_sources(moves) + ncur =~= c);
        assert(keep + move_targets(moves) + ngoal =~= Seq::<Seq<char>>::empty());
        assert(goal_slots(q) =~= (p.keep + keep) + (tgoal + g) + (move_targets(p.moves) + move_targets(moves)) + (cgoal + ngoal));
        assert(goal_slots(q).to_multiset() =~= goal_slots(p).to_multiset().add(g.to_multiset()));
    } else {
        assert(opt_seq(transfer) =~= Seq::<Seq<Seq<char>>>::empty());
        assert(goal_slots(q) =~= (p.keep + keep) + (tgoal + Seq::<Seq<char>>::empty()) + (move_targets(p.moves) + move_targets(moves)) + (cgoal + ngoal));
        assert(goal_slots(q).to_multiset() =~= goal_slots(p).to_multiset().add(
            (keep + move_targets(moves) + ngoal).to_multiset()));
    }
    assert(current_slots(q).to_multiset() =~= keys_with(cur, fc_new).to_multiset());
    assert(goal_slots(q).to_multiset() =~= keys_with(goal, fg_new).to_multiset());
}

pub proof fn lemma_paths_with_hash_contains(st: Seq<(Seq<char>, Seq<char>)>, h: u128, q: Seq<char>)
    requires
        state_keys(st).no_duplicates(),
    ensures
        paths_with_hash(st, h).contains(q) <==> path_hash(st, q) == Some(h),
{
    let is_h = |x: u128| x == h;
    lemma_paths_with_hash_eq(st, h, is_h);
    lemma_keys_with_contains(st, is_h, q);
}

/// Adding a hash group keeps the conditions on kept files and moves.
proof fn lemma_add_group_keep(
    cur: Seq<(Seq<char>, Seq<char>)>,
    goal: Seq<(Seq<char>, Seq<char>)>,
    p: PlanModel,
    done: Seq<u128>,
    h: u128,
    keep: Seq<Seq<char>>,
    delete: Seq<Seq<char>>,
    moves: Seq<(Seq<char>, Seq<char>)>,
    copy: Option<CopyModel>,
    transfer: Option<Seq<Seq<char>>>,
)
    requires
        state_keys(cur).no_duplicates(),
        state_keys(goal).no_duplicates(),
        partial_plan_ok(cur, goal, p, done),
        !done.contains(h),
        has_hash(goal, h),
        group_plan_ok(paths_with_hash(goal, h), paths_with_hash(cur, h), keep, delete, moves, copy, transfer),
    ensures
        ({
            let q = add_group(p, h, keep, delete, moves, copy, transfer);
            let d2 = done.push(h);
            &&& forall|i: int| 0 <= i < q.keep.len() ==> #[trigger] kept_in(cur, goal, d2, q.keep[i])
            &&& forall|x: Seq<char>| #[trigger] kept_in(cur, goal, d2, x) ==> q.keep.contains(x)
            &&& forall|i: int| 0 <= i < q.moves.len() ==> (#[trigger] path_hash(cur, q.moves[i].0)) is Some
                && path_hash(cur, q.moves[i].0) == path_hash(goal, q.moves[i].1)
        }),
{
    let q = add_group(p, h, keep, delete, moves, copy, transfer);
    let d2 = done.push(h);
    let g = paths_with_hash(goal, h);
    let c = paths_with_hash(cur, h);
    assert forall|x: u128| #[trigger] d2.contains(x) == (done.contains(x) || x == h) by {
        lemma_push_contains(done, h, x);
    }
    assert forall|x: Seq<char>| #[trigger] g.contains(x) <==> path_hash(goal, x) == Some(h) by {
        lemma_paths_with_hash_contains(goal, h, x);
    }
    assert forall|x: Seq<char>| #[trigger] c.contains(x) <==> path_hash(cur, x) == Some(h) by {
        lemma_paths_with_hash_contains(cur, h, x);
    }
    lemma_keys_with_nonempty(cur, h);
    lemma_keys_with_nonempty(goal, h);
    // kept paths
    assert forall|x: Seq<char>| #[trigger] q.keep.contains(x) <==> (p.keep.contains(x) || keep.contains(x)) by {
        lemma_concat_contains(p.keep, keep, x);
    }
    assert forall|i: int| 0 <= i < q.keep.len() implies #[trigger] kept_in(cur, goal, d2, q.keep[i]) by {
        if i < p.keep.len() {
            assert(q.keep[i] == p.keep[i]);
            assert(kept_in(cur, goal, done, p.keep[i]));
        } else {
            assert(q.keep[i] == keep[i - p.keep.len()]);
            assert(keep.contains(keep[i - p.keep.len()]));
        }
    }
    assert forall|x: Seq<char>| #[trigger] kept_in(cur, goal, d2, x) implies q.keep.contains(x) by {
        let hx = path_hash(cur, x).unwrap();
        if done.contains(hx) {
            assert(kept_in(cur, goal, done, x));
        } else {
            assert(hx == h);
            assert(path_hash(goal, x) == Some(h));
            assert(c.contains(x));
            assert(g.contains(x));
            assert(keep.contains(x));
        }
    }
    // moves
    assert forall|i: int| 0 <= i < q.moves.len() implies (#[trigger] path_hash(cur, q.moves[i].0)) is Some
        && path_hash(cur, q.moves[i].0) == path_hash(goal, q.moves[i].1) by {
        if i >= p.moves.len() {
            assert(q.moves[i] == moves[i - p.moves.len()]);
        }
    }
}

/// Adding a hash group keeps the conditions on copy operations.
proof fn lemma_add_group_copies(
    cur: Seq<(Seq<char>, Seq<char>)>,
    goal: Seq<(Seq<char>, Seq<char>)>,
    p: PlanModel,
    done: Seq<u128>,
    h: u128,
    keep: Seq<Seq<char>>,
    delete: Seq<Seq<char>>,
    moves: Seq<(Seq<char>, Seq<char>)>,
    copy: Option<CopyModel>,
    transfer: Option<Seq<Seq<char>>>,
)
    requires
        state_keys(cur).no_duplicates(),
        state_keys(goal).no_duplicates(),
        partial_plan_ok(cur, goal, p, done),
        !done.contains(h),
        has_hash(goal, h),
        group_plan_ok(paths_with_hash(goal, h), paths_with_hash(cur, h), keep, delete, moves, copy, transfer),
    ensures
        ({
            let q = add_group(p, h, keep, delete, moves, copy, transfer);
            let d2 = done.push(h);
            &&& forall|i: int| 0 <= i < q.copies.len() ==> #[trigger] copy_ok(cur, goal, q.keep, q.copies[i])
                && d2.contains(path_hash(cur, q.copies[i].0).unwrap())
            &&& forall|i: int, j: int| 0 <= i < q.copies.len() && 0 <= j < q.copies.len() && i != j
                ==> path_hash(cur, #[trigger] q.copies[i].0) != path_hash(cur, #[trigger] q.copies[j].0)
            &&& forall|x: u128| #[trigger] has_copy_for(cur, q.copies, x) <==> (d2.contains(x) && copy_needed(cur, goal, x))
        }),
{
    let q = add_group(p, h, keep, delete, moves, copy, transfer);
    let d2 = done.push(h);
    let g = paths_with_hash(goal, h);
    let c = paths_with_hash(cur, h);
    assert forall|x: u128| #[trigger] d2.contains(x) == (done.contains(x) || x == h) by {
        lemma_push_contains(done, h, x);
    }
    assert forall|x: Seq<char>| #[trigger] g.contains(x) <==> path_hash(goal, x) == Some(h) by {
        lemma_paths_with_hash_contains(goal, h, x);
    }
    assert forall|x: Seq<char>| #[trigger] c.contains(x) <==> path_hash(cur, x) == Some(h) by {
        lemma_paths_with_hash_contains(cur, h, x);
    }
    lemma_keys_with_nonempty(cur, h);
    lemma_keys_with_nonempty(goal, h);
    assert forall|x: Seq<char>| #[trigger] q.keep.contains(x) <==> (p.keep.contains(x) || keep.contains(x)) by {
        lemma_concat_contains(p.keep, keep, x);
    }
    // the keep list of the old operations has no path of hash h
    assert forall|j: int| 0 <= j < p.keep.len() implies path_hash(cur, #[trigger] p.keep[j]) != Some(h) by {
        assert(kept_in(cur, goal, done, p.keep[j]));
    }
    // copies
    if c.len() > 0 {
        if let Some(cp) = copy {
            assert(c.contains(cp.0));
        }
    }
    assert forall|i: int| 0 <= i < q.copies.len() implies #[trigger] copy_ok(cur, goal, q.keep, q.copies[i])
        && d2.contains(path_hash(cur, q.copies[i].0).unwrap()) by {
        if i < p.copies.len() {
            let cp = p.copies[i];
            assert(q.copies[i] == cp);
            assert(copy_ok(cur, goal, p.keep, cp));
            let hc = path_hash(cur, cp.0).unwrap();
            assert(done.contains(hc));
            if cp.1.0 is None {
                assert(q.keep.contains(cp.0));
            }
            if cp.1.0 is Some {
                assert forall|j: int| 0 <= j < q.keep.len() implies path_hash(cur, #[trigger] q.keep[j]) != Some(hc) by {
                    if j < p.keep.len() {
                        assert(q.keep[j] == p.keep[j]);
                    } else {
                        assert(q.keep[j] == keep[j - p.keep.len()]);
                        assert(keep.contains(keep[j - p.keep.len()]));
                    }
                }
            }
        } else {
            let cp = copy.unwrap();
            assert(opt_seq(copy) =~= seq![cp]);
            assert(q.copies[i] == cp);
            if cp.1.0 is None {
                assert(q.keep.contains(cp.0));
            }
            if cp.1.0 is Some {
                assert forall|j: int| 0 <= j < q.keep.len() implies path_hash(cur, #[trigger] q.keep[j]) != Some(h) by {
                    if j < p.keep.len() {
                        assert(q.keep[j] == p.keep[j]);
                    }
                }
            }
        }
    }
    assert forall|i: int, j: int| 0 <= i < q.copies.len() && 0 <= j < q.copies.len() && i != j
        implies path_hash(cur, #[trigger] q.copies[i].0) != path_hash(cur, #[trigger] q.copies[j].0) by {
        if i >= p.copies.len() || j >= p.copies.len() {
            if i < p.copies.len() {
                assert(copy_ok(cur, goal, p.keep, p.copies[i]));
                assert(done.contains(path_hash(cur, p.copies[i].0).unwrap()));
                assert(q.copies[i] == p.copies[i]);
                assert(q.copies[j] == copy.unwrap());
            } else if j < p.copies.len() {
                assert(copy_ok(cur, goal, p.keep, p.copies[j]));
                assert(done.contains(path_hash(cur, p.copies[j].0).unwrap()));
                assert(q.copies[j] == p.copies[j]);
                assert(q.copies[i] == copy.unwrap());
            } else {
                assert(opt_seq(copy).len() <= 1);
            }
        } else {
            assert(q.copies[i] == p.copies[i]);
            assert(q.copies[j] == p.copies[j]);
        }
    }
    assert forall|x: u128| #[trigger] has_copy_for(cur, q.copies, x) <==> (d2.contains(x) && copy_needed(cur, goal, x)) by {
        if has_copy_for(cur, q.copies, x) {
            let i = choose|i: int| 0 <= i < q.copies.len() && #[trigger] path_hash(cur, q.copies[i].0) == Some(x);
            if i < p.copies.len() {
                assert(q.copies[i] == p.copies[i]);
                assert(has_copy_for(cur, p.copies, x));
            } else {
                assert(q.copies[i] == copy.unwrap());
                assert(copy_needed(cur, goal, h));
            }
        }
        if d2.contains(x) && copy_needed(cur, goal, x) {
            if done.contains(x) {
                assert(has_copy_for(cur, p.copies, x));
                let i = choose|i: int| 0 <= i < p.copies.len() && #[trigger] path_hash(cur, p.copies[i].0) == Some(x);
                assert(q.copies[i] == p.copies[i]);
            } else {
                assert(x == h);
                assert(copy is Some);
                assert(q.copies[p.copies.len() as int] == copy.unwrap());
                assert(path_hash(cur, q.copies[p.copies.len() as int].0) == Some(x));
            }
        }
    }
}

/// Adding a hash group keeps the conditions on transfers and deletions.
proof fn lemma_add_group_transfers(
    cur: Seq<(Seq<char>, Seq<char>)>,
    goal: Seq<(Seq<char>, Seq<char>)>,
    p: PlanModel,
    done: Seq<u128>,
    h: u128,
    keep: Seq<Seq<char>>,
    delete: Seq<Seq<char>>,
    moves: Seq<(Seq<char>, Seq<char>)>,
    copy: Option<CopyModel>,
    transfer: Option<Seq<Seq<char>>>,
)
    requires
        state_keys(cur).no_duplicates(),
        state_keys(goal).no_duplicates(),
        partial_plan_ok(cur, goal, p, done),
        !done.contains(h),
        has_hash(goal, h),
        group_plan_ok(paths_with_hash(goal, h), paths_with_hash(cur, h), keep, delete, moves, copy, transfer),
    ensures
        ({
            let q = add_group(p, h, keep, delete, moves, copy, transfer);
            let d2 = done.push(h);
            &&& forall|i: int| 0 <= i < q.transfer.len() ==> #[trigger] transfer_ok(cur, goal, q.transfer[i])
                && d2.contains(q.transfer[i].0)
            &&& forall|i: int, j: int| 0 <= i < q.transfer.len() && 0 <= j < q.transfer.len() && i != j
                ==> (#[trigger] q.transfer[i]).0 != (#[trigger] q.transfer[j]).0
            &&& forall|x: u128| d2.contains(x) && has_hash(goal, x) && !has_hash(cur, x)
                ==> exists|i: int| 0 <= i < q.transfer.len() && (#[trigger] q.transfer[i]).0 == x
            &&& forall|i: int| 0 <= i < q.delete.len() ==> #[trigger] delete_ok(cur, goal, q.delete[i])
        }),
{
    let q = add_group(p, h, keep, delete, moves, copy, transfer);
    let d2 = done.push(h);
    let g = paths_with_hash(goal, h);
    let c = paths_with_hash(cur, h);
    assert forall|x: u128| #[trigger] d2.contains(x) == (done.contains(x) || x == h) by {
        lemma_push_contains(done, h, x);
    }
    assert forall|x: Seq<char>| #[trigger] g.contains(x) <==> path_hash(goal, x) == Some(h) by {
        lemma_paths_with_hash_contains(goal, h, x);
    }
    assert forall|x: Seq<char>| #[trigger] c.contains(x) <==> path_hash(cur, x) == Some(h) by {
        lemma_paths_with_hash_contains(cur, h, x);
    }
    lemma_keys_with_nonempty(cur, h);
    lemma_keys_with_nonempty(goal, h);
    // transfers
    assert forall|i: int| 0 <= i < p.transfer.len() implies done.contains((#[trigger] p.transfer[i]).0) by {
        assert(transfer_ok(cur, goal, p.transfer[i]));
    }
    let tnew = opt_seq(transfer).map_values(|t: Seq<Seq<char>>| (h, t));
    assert forall|i: int| 0 <= i < q.transfer.len() implies #[trigger] transfer_ok(cur, goal, q.transfer[i])
        && d2.contains(q.transfer[i].0) by {
        if i < p.transfer.len() {
            assert(q.transfer[i] == p.transfer[i]);
        } else {
            assert(q.transfer[i] == tnew[i - p.transfer.len()]);
            assert(q.transfer[i] == (h, g));
        }
    }
    assert forall|i: int, j: int| 0 <= i < q.transfer.len() && 0 <= j < q.transfer.len() && i != j
        implies (#[trigger] q.transfer[i]).0 != (#[trigger] q.transfer[j]).0 by {
        if i < p.transfer.len() && j < p.transfer.len() {
            assert(q.transfer[i] == p.transfer[i]);
            assert(q.transfer[j] == p.transfer[j]);
        } else if i < p.transfer.len() {
            assert(q.transfer[i] == p.transfer[i]);
            assert(q.transfer[j] == tnew[j - p.transfer.len()]);
        } else if j < p.transfer.len() {
            assert(q.transfer[j] == p.transfer[j]);
            assert(q.transfer[i] == tnew[i - p.transfer.len()]);
        } else {
            assert(tnew.len() <= 1);
        }
    }
    assert forall|x: u128| d2.contains(x) && has_hash(goal, x) && !has_hash(cur, x)
        implies exists|i: int| 0 <= i < q.transfer.len() && (#[trigger] q.transfer[i]).0 == x by {
        if done.contains(x) {
            let i = choose|i: int| 0 <= i < p.transfer.len() && (#[trigger] p.transfer[i]).0 == x;
            assert(q.transfer[i] == p.transfer[i]);
        } else {
            assert(x == h);
            assert(c.len() == 0);
            assert(q.transfer[p.transfer.len() as int] == tnew[0]);
        }
    }
    // deletions
    assert forall|i: int| 0 <= i < q.delete.len() implies #[trigger] delete_ok(cur, goal, q.delete[i]) by {
        if i < p.delete.len() {
            assert(q.delete[i] == p.delete[i]);
        } else {
            let x = delete[i - p.delete.len()];
            assert(q.delete[i] == x);
            assert(delete.contains(x));
            let ncur = opt_seq(copy).map_values(|y: CopyModel| copy_cur_side(y)).flatten();
            lemma_concat_contains(keep, delete, x);
            lemma_concat_contains(keep + delete, move_sources(moves), x);
            lemma_concat_contains(keep + delete + move_sources(moves), ncur, x);
            assert((keep + delete + move_sources(moves) + ncur).to_multiset().count(x) > 0);
            assert(c.contains(x));
            assert(copy is None);
        }
    }
}

proof fn lemma_add_group(
    cur: Seq<(Seq<char>, Seq<char>)>,
    goal: Seq<(Seq<char>, Seq<char>)>,
    p: PlanModel,
    done: Seq<u128>,
    h: u128,
    keep: Seq<Seq<char>>,
    delete: Seq<Seq<char>>,
    moves: Seq<(Seq<char>, Seq<char>)>,
    copy: Option<CopyModel>,
    transfer: Option<Seq<Seq<char>>>,
)
    requires
        state_keys(cur).no_duplicates(),
        state_keys(goal).no_duplicates(),
        partial_plan_ok(cur, goal, p, done),
        !done.contains(h),
        has_hash(goal, h),
        group_plan_ok(paths_with_hash(goal, h), paths_with_hash(cur, h), keep, delete, moves, copy, transfer),
    ensures
        partial_plan_ok(cur, goal, add_group(p, h, keep, delete, moves, copy, transfer), done.push(h)),
{
    lemma_add_group_slots(cur, goal, p, done, h, keep, delete, moves, copy, transfer);
    lemma_add_group_keep(cur, goal, p, done, h, keep, delete, moves, copy, transfer);
    lemma_add_group_copies(cur, goal, p, done, h, keep, delete, moves, copy, transfer);
    lemma_add_group_transfers(cur, goal, p, done, h, keep, delete, moves, copy, transfer);
}

proof fn lemma_partial_to_full(cur: Seq<(Seq<char>, Seq<char>)>, goal: Seq<(Seq<char>, Seq<char>)>, p: PlanModel, done: Seq<u128>)
    requires
        hashes_valid(cur),
        hashes_valid(goal),
        partial_plan_ok(cur, goal, p, done),
        forall|h: u128| #[trigger] done.contains(h) <==> has_hash(goal, h),
    ensures
        plan_ok(cur, goal, p),
{
    let fc = |x: u128| !has_hash(goal, x) || done.contains(x);
    let fg = |x: u128| done.contains(x);
    assert forall|i: int| 0 <= i < cur.len() implies fc(#[trigger] parse_hash(cur[i].1).unwrap()) by {
        let h = parse_hash(cur[i].1).unwrap();
        if has_hash(goal, h) {
            assert(done.contains(h));
        }
    }
    assert forall|i: int| 0 <= i < goal.len() implies fg(#[trigger] parse_hash(goal[i].1).unwrap()) by {
        let h = parse_hash(goal[i].1).unwrap();
        assert(has_hash(goal, h));
    }
    lemma_keys_with_all(cur, fc);
    lemma_keys_with_all(goal, fg);
    assert forall|i: int| 0 <= i < p.keep.len() implies (#[trigger] path_hash(cur, p.keep[i])) is Some
        && path_hash(cur, p.keep[i]) == path_hash(goal, p.keep[i]) by {
        assert(kept_in(cur, goal, done, p.keep[i]));
    }
    assert forall|q: Seq<char>| (#[trigger] path_hash(cur, q)) is Some && path_hash(cur, q) == path_hash(goal, q)
        implies p.keep.contains(q) by {
        lemma_path_hash_has_hash(goal, q);
        assert(kept_in(cur, goal, done, q));
    }
    assert forall|i: int| 0 <= i < p.copies.len() implies #[trigger] copy_ok(cur, goal, p.keep, p.copies[i]) by {}
    assert forall|h: u128| #[trigger] has_copy_for(cur, p.copies, h) <==> copy_needed(cur, goal, h) by {
        assert(has_copy_for(cur, p.copies, h) <==> (done.contains(h) && copy_needed(cur, goal, h)));
        if copy_needed(cur, goal, h) {
            assert(done.contains(h));
        }
    }
    assert forall|i: int| 0 <= i < p.transfer.len() implies #[trigger] transfer_ok(cur, goal, p.transfer[i]) by {}
    assert forall|h: u128| has_hash(goal, h) && !has_hash(cur, h)
        implies exists|i: int| 0 <= i < p.transfer.len() && (#[trigger] p.transfer[i]).0 == h by {
        assert(done.contains(h));
    }
}

/// Plans the operations, without temporary paths.
fn plan_transformations(
    current_state: &Vec<(String, RepositoryFile)>,
    goal_state: &Vec<(String, RepositoryFile)>,
) -> (r: Result<FileTranformations, FileProcessError>)
    requires
        state_keys(state_model(current_state@)).no_duplicates(),
        state_keys(state_model(goal_state@)).no_duplicates(),
    ensures
        match r {
            Ok(t) => hashes_valid(state_model(current_state@)) && hashes_valid(state_model(goal_state@))
                && plan_ok(state_model(current_state@), state_model(goal_state@), t.plan_view())
                && t.temp_paths@.len() == 0,
            Err(e) => e == FileProcessError::HashConversionError
                && !(hashes_valid(state_model(current_state@)) && hashes_valid(state_model(goal_state@))),
        },
{
    let ghost cur = state_model(current_state@);
    let ghost goal = state_model(goal_state@);
    let goal_hs = match parse_hashes(goal_state) {
        Some(hs) => hs,
        None => {
            return Err(FileProcessError::HashConversionError);
        },
    };
    let cur_hs = match parse_hashes(current_state) {
        Some(hs) => hs,
        None => {
            return Err(FileProcessError::HashConversionError);
        },
    };
    let ghs = distinct_hashes(&goal_hs);
    assert forall|h: u128| #[trigger] ghs@.contains(h) <==> has_hash(goal, h) by {
        lemma_has_hash_cached(goal, goal_hs@, h);
    }
    // current files whose content the goal does not hold
    let mut to_delete: Vec<String> = Vec::new();
    let mut i: usize = 0;
    let ghost not_in_goal = |x: u128| !has_hash(goal, x);
    while i < current_state.len()
        invariant
            i <= current_state.len() == cur_hs.len(),
            cur == state_model(current_state@),
            forall|j: int| 0 <= j < current_state.len() ==> parse_hash(#[trigger] cur[j].1) == Some(cur_hs[j]),
            forall|h: u128| #[trigger] ghs@.contains(h) <==> has_hash(goal, h),
            forall|x: u128| #[trigger] not_in_goal(x) == !has_hash(goal, x),
            to_delete.deep_view() == keys_with(cur.take(i as int), not_in_goal),
        decreases current_state.len() - i,
    {
        proof {
            assert(cur.take(i + 1).drop_last() =~= cur.take(i as int));
            assert(cur.take(i + 1).last() == cur[i as int]);
            assert(parse_hash(cur[i as int].1) == Some(cur_hs[i as int]));
        }
        assert(not_in_goal(cur_hs[i as int]) == !ghs@.contains(cur_hs[i as int]));
        if !contains_u128(&ghs, cur_hs[i]) {
            let ghost old_d = to_delete.deep_view();
            to_delete.push(current_state[i].0.clone());
            assert(to_delete.deep_view() =~= old_d.push(cur[i as int].0));
        }
        i = i + 1;
    }
    assert(cur.take(current_state.len() as int) =~= cur);
    let mut t = FileTranformations {
        to_delete,
        to_keep: Vec::new(),
        to_copy: Vec::new(),
        to_move: Vec::new(),
        to_transfer: Vec::new(),
        temp_paths: Vec::new(),
    };
    proof {
        let e = Seq::<u128>::empty();
        let fc = |x: u128| !has_hash(goal, x) || e.contains(x);
        lemma_keys_with_ext(cur, fc, not_in_goal);
        lemma_keys_with_none(goal, |x: u128| e.contains(x));
        let pv = t.plan_view();
        assert(current_slots(pv) =~= pv.delete);
        assert(goal_slots(pv) =~= Seq::<Seq<char>>::empty());
        assert forall|i: int| 0 <= i < pv.delete.len() implies #[trigger] delete_ok(cur, goal, pv.delete[i]) by {
            let is_nig = not_in_goal;
            lemma_keys_with_contains(cur, is_nig, pv.delete[i]);
            assert(pv.delete.contains(pv.delete[i]));
        }
        assert(ghs@.take(0) =~= e);
    }
    let mut k: usize = 0;
    while k < ghs.len()
        invariant
            k <= ghs.len(),
            cur == state_model(current_state@),
            goal == state_model(goal_state@),
            state_keys(cur).no_duplicates(),
            state_keys(goal).no_duplicates(),
            hashes_valid(cur),
            hashes_valid(goal),
            cur_hs.len() == current_state.len(),
            goal_hs.len() == goal_state.len(),
            forall|j: int| 0 <= j < current_state.len() ==> parse_hash(#[trigger] cur[j].1) == Some(cur_hs[j]),
            forall|j: int| 0 <= j < goal_state.len() ==> parse_hash(#[trigger] goal[j].1) == Some(goal_hs[j]),
            ghs@.no_duplicates(),
            forall|h: u128| #[trigger] ghs@.contains(h) <==> has_hash(goal, h),
            partial_plan_ok(cur, goal, t.plan_view(), ghs@.take(k as int)),
            t.temp_paths@.len() == 0,
        decreases ghs.len() - k,
    {
        let h = ghs[k];
        let g = paths_with(goal_state, &goal_hs, h);
        let c = paths_with(current_state, &cur_hs, h);
        proof {
            assert(ghs@.contains(h));
            lemma_keys_with_nonempty(goal, h);
            let is_h = |x: u128| x == h;
            lemma_paths_with_hash_eq(goal, h, is_h);
            lemma_paths_with_hash_eq(cur, h, is_h);
            lemma_keys_with_no_dup(goal, is_h);
            lemma_keys_with_no_dup(cur, is_h);
            assert(!ghs@.take(k as int).contains(h)) by {
                if ghs@.take(k as int).contains(h) {
                    let j = choose|j: int| 0 <= j < k && ghs@.take(k as int)[j] == h;
                    assert(ghs@[j] == ghs@[k as int]);
                }
            }
            assert(ghs@.take(k + 1) =~= ghs@.take(k as int).push(h));
        }
        let mut gp = plan_hash_group(&g, &c);
        let ghost old = t.plan_view();
        let ghost gk = gp.keep.deep_view();
        let ghost gd = gp.delete.deep_view();
        let ghost gm = gp.moves.deep_view();
        let ghost gc = gp.copy.deep_view();
        let ghost gt = gp.transfer.deep_view();
        proof {
            lemma_add_group(cur, goal, old, ghs@.take(k as int), h, gk, gd, gm, gc, gt);
        }
        let ghost ok = t.to_keep@;
        let ghost od = t.to_delete@;
        let ghost om = t.to_move@;
        let ghost oc = t.to_copy@;
        let ghost ot = t.to_transfer@;
        let ghost pk = gp.keep@;
        let ghost pd = gp.delete@;
        let ghost pm = gp.moves@;
        t.to_keep.append(&mut gp.keep);
        t.to_delete.append(&mut gp.delete);
        t.to_move.append(&mut gp.moves);
        match gp.copy {
            Some(cp) => {
                t.to_copy.push(cp);
            },
            None => {},
        }
        match gp.transfer {
            Some(tr) => {
                t.to_transfer.push((h, tr));
            },
            None => {},
        }
        proof {
            let n = t.plan_view();
            let a = add_group(old, h, gk, gd, gm, gc, gt);
            assert(t.to_keep@ == ok + pk);
            assert(n.keep =~= a.keep);
            assert(n.delete =~= a.delete);
            assert(n.moves =~= a.moves);
            assert(n.copies =~= a.copies);
            assert(n.transfer =~= a.transfer);
            assert(n == a);
        }
        k = k + 1;
    }
    proof {
        assert(ghs@.take(ghs.len() as int) =~= ghs@);
        lemma_partial_to_full(cur, goal, t.plan_view(), ghs@);
    }
    Ok(t)
}

/// `s` without a leading `'/'`.
pub open spec fn strip_leading_slash(s: Seq<char>) -> Seq<char> {
    if s.len() > 0 && s[0] == '/' {
        s.drop_first()
    } else {
        s
    }
}

/// The candidate temporary path for `path` with random part `r`: in the
/// directory of `path`, named `r` plus `.tmp`.
pub open spec fn temp_candidate(path: Seq<char>, r: Seq<char>) -> Seq<char> {
    split_dir_name(path).0 + seq!['/'] + r + seq!['.', 't', 'm', 'p']
}

/// `tmp` is a temporary path for `path` that the existence test rejected:
/// the candidate for some random part of 8 key characters, which the test
/// answered `false` for, without its leading `'/'`.
pub open spec fn temp_path_for<F: Fn(&str) -> bool>(existing: F, path: Seq<char>, tmp: Seq<char>) -> bool {
    exists|r: Seq<char>, s: &str| #![trigger temp_candidate(path, r), s@]
        is_random_key(r, 8) && s@ == temp_candidate(path, r) && call_ensures(existing, (s,), false)
            && tmp == strip_leading_slash(temp_candidate(path, r))
}

/// The existence test answered `true` (taken) for the candidate for `path`
/// with random part `r`.
pub open spec fn candidate_taken<F: Fn(&str) -> bool>(existing: F, path: Seq<char>, r: Seq<char>) -> bool {
    exists|s: &str| #![trigger s@] s@ == temp_candidate(path, r) && call_ensures(existing, (s,), true)
}

/// The existence test reported taken each of `u64::MAX` candidates for
/// `path`, each with a random part of 8 key characters.
pub open spec fn all_candidates_taken<F: Fn(&str) -> bool>(existing: F, path: Seq<char>) -> bool {
    exists|tried: Seq<Seq<char>>| tried.len() == u64::MAX
        && forall|i: int| 0 <= i < tried.len() ==> is_random_key(#[trigger] tried[i], 8)
            && candidate_taken(existing, path, tried[i])
}

/// A temporary path next to `path` that `existing` says is not taken; `None`
/// only when every one of `u64::MAX` random candidates was taken.
fn generate_temp_path<F: Fn(&str) -> bool>(path: &str, existing: &F) -> (r: Option<String>)
    requires
        forall|s: &str| #[trigger] call_requires(*existing, (s,)),
    ensures
        r matches Some(t) ==> temp_path_for(*existing, path@, t@),
        r is None ==> all_candidates_taken(*existing, path@),
{
    let (dir, _name) = extract_path_dir_and_name(path);
    let mut attempts: u64 = 0;
    let ghost mut tried: Seq<Seq<char>> = Seq::empty();
    while attempts < u64::MAX
        invariant
            dir@ == split_dir_name(path@).0,
            forall|s: &str| #[trigger] call_requires(*existing, (s,)),
            tried.len() == attempts,
            forall|i: int| 0 <= i < tried.len() ==> is_random_key(#[trigger] tried[i], 8)
                && candidate_taken(*existing, path@, tried[i]),
        decreases u64::MAX - attempts,
    {
        let random = generate_random_string(8);
        let mut output = dir.clone();
        push_char(&mut output, '/');
        let rv = chars_of(random.as_str());
        let mut j: usize = 0;
        while j < rv.len()
            invariant
                j <= rv.len(),
                rv@ == random@,
                output@ == dir@ + seq!['/'] + rv@.take(j as int),
            decreases rv.len() - j,
        {
            push_char(&mut output, rv[j]);
            assert(output@ =~= dir@ + seq!['/'] + rv@.take(j + 1));
            j = j + 1;
        }
        assert(rv@.take(rv.len() as int) =~= rv@);
        push_char(&mut output, '.');
        push_char(&mut output, 't');
        push_char(&mut output, 'm');
        push_char(&mut output, 'p');
        assert(output@ =~= temp_candidate(path@, random@));
        let candidate = output.as_str();
        let taken = existing(candidate);
        if !taken {
            let ov = chars_of(output.as_str());
            if ov.len() > 0 && ov[0] == '/' {
                let stripped = string_of_range(&ov, 1, ov.len());
                assert(stripped@ =~= strip_leading_slash(output@));
                return Some(stripped);
            }
            return Some(output);
        }
        proof {
            assert(candidate@ == temp_candidate(path@, random@));
            assert(candidate_taken(*existing, path@, random@));
            let t0 = tried;
            tried = tried.push(random@);
            assert forall|i: int| 0 <= i < tried.len() implies is_random_key(#[trigger] tried[i], 8)
                && candidate_taken(*existing, path@, tried[i]) by {
                if i < t0.len() {
                    assert(tried[i] == t0[i]);
                }
            }
        }
        attempts = attempts + 1;
    }
    None
}

/// The destinations the operations write, in the order temporary paths are
/// handed out: move targets, then for each copy operation its rename target
/// and its copy targets.
pub open spec fn destinations(moves: Seq<(Seq<char>, Seq<char>)>, copies: Seq<CopyModel>) -> Seq<Seq<char>> {
    move_targets(moves) + copies.map_values(|x: CopyModel| copy_goal_side(x)).flatten()
}

/// The paths in use before any destination is written: move sources, copy
/// origins and the paths that receive fetched contents.
pub open spec fn paths_in_use(p: PlanModel) -> Seq<Seq<char>> {
    move_sources(p.moves) + p.copies.map_values(|x: CopyModel| x.0) + p.transfer.map_values(|t: (u128, Seq<Seq<char>>)| t.1).flatten()
}

/// Whether the `k`-th destination must go through a temporary path: it is a
/// path in use, or an earlier destination.
pub open spec fn needs_temp(p: PlanModel, k: int) -> bool {
    let d = destinations(p.moves, p.copies);
    paths_in_use(p).contains(d[k]) || d.take(k).contains(d[k])
}

/// Whether some destination of the plan `p` must go through a temporary
/// path (see `needs_temp`).
pub open spec fn needs_some_temp(p: PlanModel) -> bool {
    exists|k: int| 0 <= k < destinations(p.moves, p.copies).len() && #[trigger] needs_temp(p, k)
}

/// The search for a temporary path failed for some destination of `p` that
/// needs one: the existence test reported taken every candidate tried.
pub open spec fn temp_search_failed<F: Fn(&str) -> bool>(p: PlanModel, existing: F) -> bool {
    exists|k: int| 0 <= k < destinations(p.moves, p.copies).len() && #[trigger] needs_temp(p, k)
        && all_candidates_taken(existing, destinations(p.moves, p.copies)[k])
}

/// The temporary path recorded for `d`.
pub open spec fn temp_of(temps: Seq<(Seq<char>, Seq<char>)>, d: Seq<char>) -> Option<Seq<char>>
    decreases temps.len(),
{
    if temps.len() == 0 {
        None
    } else if temps.last().0 == d {
        Some(temps.last().1)
    } else {
        temp_of(temps.drop_last(), d)
    }
}

/// The shape of the copy operations is kept: same origins, renames where
/// there were renames, as many copy targets.
pub open spec fn same_copy_shape(a: Seq<CopyModel>, b: Seq<CopyModel>) -> bool {
    &&& a.len() == b.len()
    &&& forall|i: int| 0 <= i < a.len() ==> (#[trigger] a[i]).0 == b[i].0 && (a[i].1.0 is Some) == (b[i].1.0 is Some)
        && a[i].1.1.len() == b[i].1.1.len()
}

/// `t` is the plan `p` with temporary paths put in: destinations that are in
/// use or written twice are redirected to one temporary path per destination,
/// recorded in `t.temp_paths`, each one rejected by `existing`.
pub open spec fn with_temp_paths<F: Fn(&str) -> bool>(p: PlanModel, t: FileTranformations, existing: F) -> bool {
    let q = t.plan_view();
    let temps = t.temp_paths.deep_view();
    let dp = destinations(p.moves, p.copies);
    let dq = destinations(q.moves, q.copies);
    &&& q.keep == p.keep
    &&& q.delete == p.delete
    &&& q.transfer == p.transfer
    &&& move_sources(q.moves) == move_sources(p.moves)
    &&& q.moves.len() == p.moves.len()
    &&& same_copy_shape(q.copies, p.copies)
    &&& dq.len() == dp.len()
    &&& forall|k: int| 0 <= k < dp.len() ==> #[trigger] dq[k] == if needs_temp(p, k) {
        temp_of(temps, dp[k]).unwrap()
    } else {
        dp[k]
    }
    &&& temps.map_values(|e: (Seq<char>, Seq<char>)| e.0).no_duplicates()
    &&& forall|d: Seq<char>| (temp_of(temps, d) is Some) <==> (exists|k: int| 0 <= k < dp.len() && #[trigger] needs_temp(p, k) && dp[k] == d)
    &&& forall|i: int| 0 <= i < temps.len() ==> temp_path_for(existing, (#[trigger] temps[i]).0, temps[i].1)
}

fn lookup_temp(temps: &Vec<(String, String)>, d: &String) -> (r: Option<String>)
    ensures
        r.deep_view() == temp_of(temps.deep_view(), d@),
{
    let ghost tv = temps.deep_view();
    let mut i = temps.len();
    proof {
        assert(tv.take(i as int) =~= tv);
    }
    while i > 0
        invariant
            i <= temps.len(),
            tv == temps.deep_view(),
            temp_of(tv, d@) == temp_of(tv.take(i as int), d@),
        decreases i,
    {
        proof {
            assert(tv.take(i as int).drop_last() =~= tv.take(i - 1));
            assert(tv.take(i as int).last() == tv[i - 1]);
        }
        if temps[i - 1].0 == *d {
            return Some(temps[i - 1].1.clone());
        }
        i = i - 1;
    }
    None
}

proof fn lemma_temp_of_keys(temps: Seq<(Seq<char>, Seq<char>)>, d: Seq<char>)
    ensures
        temp_of(temps, d) is Some <==> temps.map_values(|e: (Seq<char>, Seq<char>)| e.0).contains(d),
    decreases temps.len(),
{
    let f = |e: (Seq<char>, Seq<char>)| e.0;
    if temps.len() > 0 {
        let dl = temps.drop_last();
        lemma_temp_of_keys(dl, d);
        assert(temps.map_values(f) =~= dl.map_values(f).push(temps.last().0));
        lemma_push_contains(dl.map_values(f), temps.last().0, d);
    }
}

/// Puts temporary paths into a plan, as described by `with_temp_paths`.
fn put_temp_paths<F: Fn(&str) -> bool>(plan: FileTranformations, existing: &F) -> (r: Result<FileTranformations, FileProcessError>)
    requires
        forall|s: &str| #[trigger] call_requires(*existing, (s,)),
    ensures
        match r {
            Ok(t) => with_temp_paths(plan.plan_view(), t, *existing),
            Err(e) => e == FileProcessError::TempPathUnavailable && temp_search_failed(plan.plan_view(), *existing),
        },
{
    let ghost p = plan.plan_view();
    // paths in use before anything is written
    let mut in_use: Vec<String> = Vec::new();
    let mut i: usize = 0;
    while i < plan.to_move.len()
        invariant
            i <= plan.to_move.len(),
            p == plan.plan_view(),
            in_use.deep_view() == move_sources(p.moves).take(i as int),
        decreases plan.to_move.len() - i,
    {
        let ghost o = in_use.deep_view();
        in_use.push(plan.to_move[i].0.clone());
        assert(in_use.deep_view() =~= o.push(p.moves[i as int].0));
        assert(move_sources(p.moves).take(i + 1) =~= move_sources(p.moves).take(i as int).push(p.moves[i as int].0));
        i = i + 1;
    }
    assert(move_sources(p.moves).take(i as int) =~= move_sources(p.moves));
    let ghost origins = p.copies.map_values(|x: CopyModel| x.0);
    let mut i: usize = 0;
    while i < plan.to_copy.len()
        invariant
            i <= plan.to_copy.len(),
            p == plan.plan_view(),
            origins == p.copies.map_values(|x: CopyModel| x.0),
            in_use.deep_view() == move_sources(p.moves) + origins.take(i as int),
        decreases plan.to_copy.len() - i,
    {
        let ghost o = in_use.deep_view();
        in_use.push(plan.to_copy[i].0.clone());
        assert(in_use.deep_view() =~= o.push(p.copies[i as int].0));
        assert(origins.take(i + 1) =~= origins.take(i as int).push(p.copies[i as int].0));
        i = i + 1;
    }
    assert(origins.take(i as int) =~= origins);
    let ghost tps = p.transfer.map_values(|t: (u128, Seq<Seq<char>>)| t.1);
    let ghost base = move_sources(p.moves) + origins;
    let mut i: usize = 0;
    while i < plan.to_transfer.len()
        invariant
            i <= plan.to_transfer.len(),
            p == plan.plan_view(),
            tps == p.transfer.map_values(|t: (u128, Seq<Seq<char>>)| t.1),
            in_use.deep_view() == base + tps.take(i as int).flatten(),
        decreases plan.to_transfer.len() - i,
    {
        let ghost o = in_use.deep_view();
        let mut j: usize = 0;
        while j < plan.to_transfer[i].1.len()
            invariant
                i < plan.to_transfer.len(),
                j <= plan.to_transfer[i as int].1.len(),
                p == plan.plan_view(),
                in_use.deep_view() == o + p.transfer[i as int].1.take(j as int),
            decreases plan.to_transfer[i as int].1.len() - j,
        {
            let ghost o2 = in_use.deep_view();
            in_use.push(plan.to_transfer[i].1[j].clone());
            assert(in_use.deep_view() =~= o2.push(p.transfer[i as int].1[j as int]));
            assert(p.transfer[i as int].1.take(j + 1) =~= p.transfer[i as int].1.take(j as int).push(p.transfer[i as int].1[j as int]));
            j = j + 1;
        }
        proof {
            assert(p.transfer[i as int].1.take(j as int) =~= p.transfer[i as int].1);
            assert(tps.take(i + 1) =~= tps.take(i as int).push(tps[i as int]));
            tps.take(i as int).lemma_flatten_push(tps[i as int]);
            assert(in_use.deep_view() =~= base + tps.take(i + 1).flatten());
        }
        i = i + 1;
    }
    assert(tps.take(i as int) =~= tps);
    assert(in_use.deep_view() =~= paths_in_use(p));
    // the destinations, in order
    let ghost dp = destinations(p.moves, p.copies);
    let ghost mt = move_targets(p.moves);
    let ghost gs = p.copies.map_values(|x: CopyModel| copy_goal_side(x));
    let mut flat: Vec<String> = Vec::new();
    let mut i: usize = 0;
    while i < plan.to_move.len()
        invariant
            i <= plan.to_move.len(),
            p == plan.plan_view(),
            mt == move_targets(p.moves),
            flat.deep_view() == mt.take(i as int),
        decreases plan.to_move.len() - i,
    {
        let ghost o = flat.deep_view();
        flat.push(plan.to_move[i].1.clone());
        assert(flat.deep_view() =~= o.push(p.moves[i as int].1));
        assert(mt.take(i + 1) =~= mt.take(i as int).push(p.moves[i as int].1));
        i = i + 1;
    }
    assert(mt.take(i as int) =~= mt);
    let m = flat.len();
    let mut i: usize = 0;
    while i < plan.to_copy.len()
        invariant
            i <= plan.to_copy.len(),
            p == plan.plan_view(),
            gs == p.copies.map_values(|x: CopyModel| copy_goal_side(x)),
            flat.deep_view() == mt + gs.take(i as int).flatten(),
        decreases plan.to_copy.len() - i,
    {
        let ghost o = flat.deep_view();
        match &plan.to_copy[i].1.0 {
            Some(rn) => {
                flat.push(rn.clone());
            },
            None => {},
        }
        let ghost o1 = flat.deep_view();
        assert(o1 =~= o + opt_seq(p.copies[i as int].1.0));
        let mut j: usize = 0;
        while j < plan.to_copy[i].1.1.len()
            invariant
                i < plan.to_copy.len(),
                j <= plan.to_copy[i as int].1.1.len(),
                p == plan.plan_view(),
                flat.deep_view() == o1 + p.copies[i as int].1.1.take(j as int),
            decreases plan.to_copy[i as int].1.1.len() - j,
        {
            let ghost o2 = flat.deep_view();
            flat.push(plan.to_copy[i].1.1[j].clone());
            assert(flat.deep_view() =~= o2.push(p.copies[i as int].1.1[j as int]));
            assert(p.copies[i as int].1.1.take(j + 1) =~= p.copies[i as int].1.1.take(j as int).push(p.copies[i as int].1.1[j as int]));
            j = j + 1;
        }
        proof {
            assert(p.copies[i as int].1.1.take(j as int) =~= p.copies[i as int].1.1);
            assert(gs.take(i + 1) =~= gs.take(i as int).push(gs[i as int]));
            gs.take(i as int).lemma_flatten_push(gs[i as int]);
            assert(flat.deep_view() =~= mt + gs.take(i + 1).flatten());
        }
        i = i + 1;
    }
    assert(gs.take(i as int) =~= gs);
    assert(flat.deep_view() =~= dp);
    // redirect destinations that are in use or already written
    let mut seen = in_use;
    let mut out: Vec<String> = Vec::new();
    let mut temps: Vec<(String, String)> = Vec::new();
    let ghost iu = paths_in_use(p);
    let mut k: usize = 0;
    while k < flat.len()
        invariant
            k <= flat.len(),
            p == plan.plan_view(),
            flat.deep_view() == dp,
            dp == destinations(p.moves, p.copies),
            iu == paths_in_use(p),
            forall|s: &str| #[trigger] call_requires(*existing, (s,)),
            forall|x: Seq<char>| #[trigger] seen.deep_view().contains(x) <==> (iu.contains(x) || dp.take(k as int).contains(x)),
            out.len() == k,
            forall|j: int| 0 <= j < k ==> #[trigger] out.deep_view()[j] == if needs_temp(p, j) {
                temp_of(temps.deep_view(), dp[j]).unwrap()
            } else {
                dp[j]
            },
            temps.deep_view().map_values(|e: (Seq<char>, Seq<char>)| e.0).no_duplicates(),
            forall|d: Seq<char>| (temp_of(temps.deep_view(), d) is Some) <==> (exists|j: int| 0 <= j < k && #[trigger] needs_temp(p, j) && dp[j] == d),
            forall|i: int| 0 <= i < temps.len() ==> temp_path_for(*existing, (#[trigger] temps.deep_view()[i]).0, temps.deep_view()[i].1),
        decreases flat.len() - k,
    {
        let d = flat[k].clone();
        let ghost dv = d@;
        let ghost tv0 = temps.deep_view();
        let ghost ov = out.deep_view();
        proof {
            assert(dv == dp[k as int]);
            assert(dp.take(k + 1) =~= dp.take(k as int).push(dv));
        }
        if contains_str(&seen, &d) {
            assert(needs_temp(p, k as int));
            let found = lookup_temp(&temps, &d);
            match found {
                Some(tmp) => {
                    out.push(tmp);
                    proof {
                        assert(out.deep_view() =~= ov.push(temp_of(tv0, dv).unwrap()));
                    }
                },
                None => {
                    let tmp = match generate_temp_path(d.as_str(), existing) {
                        Some(t) => t,
                        None => {
                            assert(needs_temp(p, k as int) && k < dp.len());
                            assert(all_candidates_taken(*existing, dp[k as int]));
                            return Err(FileProcessError::TempPathUnavailable);
                        },
                    };
                    let ghost tmpv = tmp@;
                    proof {
                        lemma_temp_of_keys(tv0, dv);
                        let f = |e: (Seq<char>, Seq<char>)| e.0;
                        lemma_push_no_dup(tv0.map_values(f), dv);
                    }
                    temps.push((d.clone(), tmp.clone()));
                    out.push(tmp);
                    proof {
                        let tv = temps.deep_view();
                        let f = |e: (Seq<char>, Seq<char>)| e.0;
                        assert(tv =~= tv0.push((dv, tmpv)));
                        assert(tv.map_values(f) =~= tv0.map_values(f).push(dv));
                        assert(out.deep_view() =~= ov.push(tmpv));
                        assert(tv.drop_last() =~= tv0);
                        assert forall|x: Seq<char>| temp_of(tv, x) == if x == dv { Some(tmpv) } else { temp_of(tv0, x) } by {}
                        assert forall|j: int| 0 <= j < k implies #[trigger] out.deep_view()[j] == if needs_temp(p, j) {
                            temp_of(tv, dp[j]).unwrap()
                        } else {
                            dp[j]
                        } by {
                            assert(out.deep_view()[j] == ov[j]);
                            if needs_temp(p, j) {
                                assert(temp_of(tv0, dp[j]) is Some);
                            }
                        }
                    }
                },
            }
        } else {
            assert(!needs_temp(p, k as int));
            let ghost sv = seen.deep_view();
            seen.push(d.clone());
            out.push(d);
            proof {
                assert(seen.deep_view() =~= sv.push(dv));
                assert(out.deep_view() =~= ov.push(dv));
                assert forall|x: Seq<char>| #[trigger] seen.deep_view().contains(x) <==> (iu.contains(x) || dp.take(k + 1).contains(x)) by {
                    lemma_push_contains(sv, dv, x);
                    lemma_push_contains(dp.take(k as int), dv, x);
                }
            }
        }
        proof {
            assert forall|x: Seq<char>| #[trigger] seen.deep_view().contains(x) <==> (iu.contains(x) || dp.take(k + 1).contains(x)) by {
                lemma_push_contains(dp.take(k as int), dv, x);
            }
            assert forall|x: Seq<char>| (temp_of(temps.deep_view(), x) is Some) <==> (exists|j: int| 0 <= j < k + 1 && #[trigger] needs_temp(p, j) && dp[j] == x) by {
                if temp_of(temps.deep_view(), x) is Some && !(temp_of(tv0, x) is Some) {
                    assert(needs_temp(p, k as int) && dp[k as int] == x);
                }
                if exists|j: int| 0 <= j < k + 1 && #[trigger] needs_temp(p, j) && dp[j] == x {
                    let j = choose|j: int| 0 <= j < k + 1 && #[trigger] needs_temp(p, j) && dp[j] == x;
                    if j < k {
                        assert(temp_of(tv0, x) is Some);
                    }
                }
            }
        }
        k = k + 1;
    }
    let ghost ov = out.deep_view();
    let ghost temps_v = temps.deep_view();
    assert(out.len() == dp.len());
    // rebuild the moves and copy operations around the new destinations
    let mut new_moves: Vec<(String, String)> = Vec::new();
    let mut i: usize = 0;
    while i < m
        invariant
            i <= m == plan.to_move.len() == mt.len(),
            p == plan.plan_view(),
            mt == move_targets(p.moves),
            ov == out.deep_view(),
            out.len() == dp.len(),
            dp == mt + gs.flatten(),
            move_sources(new_moves.deep_view()) == move_sources(p.moves).take(i as int),
            move_targets(new_moves.deep_view()) == ov.take(i as int),
            new_moves.len() == i,
        decreases m - i,
    {
        let ghost o = new_moves.deep_view();
        new_moves.push((plan.to_move[i].0.clone(), out[i].clone()));
        proof {
            let nv = new_moves.deep_view();
            assert(nv =~= o.push((p.moves[i as int].0, ov[i as int])));
            assert(move_sources(nv) =~= move_sources(p.moves).take(i + 1));
            assert(move_targets(nv) =~= ov.take(i + 1));
        }
        i = i + 1;
    }
    proof {
        assert(move_sources(p.moves).take(m as int) =~= move_sources(p.moves));
        vstd::seq_lib::lemma_flatten_concat(gs.take(0), gs);
    }
    let mut new_copies: Vec<(String, (Option<String>, Vec<String>))> = Vec::new();
    let mut off: usize = m;
    let mut i: usize = 0;
    while i < plan.to_copy.len()
        invariant
            i <= plan.to_copy.len() == gs.len(),
            p == plan.plan_view(),
            gs == p.copies.map_values(|x: CopyModel| copy_goal_side(x)),
            ov == out.deep_view(),
            out.len() == dp.len() == m + gs.flatten().len(),
            off == m + gs.take(i as int).flatten().len(),
            new_copies.deep_view().map_values(|x: CopyModel| copy_goal_side(x)).flatten() == ov.subrange(m as int, off as int),
            same_copy_shape(new_copies.deep_view(), p.copies.take(i as int)),
        decreases plan.to_copy.len() - i,
    {
        proof {
            assert(gs.take(i + 1) =~= gs.take(i as int).push(gs[i as int]));
            gs.take(i as int).lemma_flatten_push(gs[i as int]);
            assert(gs =~= gs.take(i + 1) + gs.skip(i + 1));
            vstd::seq_lib::lemma_flatten_concat(gs.take(i + 1), gs.skip(i + 1));
        }
        let ghost cp = p.copies[i as int];
        let ghost off0 = off;
        let rn: Option<String> = match &plan.to_copy[i].1.0 {
            Some(_) => {
                let x = out[off].clone();
                off = off + 1;
                Some(x)
            },
            None => None,
        };
        let ghost off1 = off;
        let mut targets: Vec<String> = Vec::new();
        let mut j: usize = 0;
        while j < plan.to_copy[i].1.1.len()
            invariant
                i < plan.to_copy.len(),
                p == plan.plan_view(),
                cp == p.copies[i as int],
                j <= cp.1.1.len(),
                ov == out.deep_view(),
                off == off1 + j,
                off1 + cp.1.1.len() <= out.len(),
                targets.deep_view() == ov.subrange(off1 as int, off as int),
            decreases cp.1.1.len() - j,
        {
            let ghost o = targets.deep_view();
            targets.push(out[off].clone());
            assert(targets.deep_view() =~= o.push(ov[off as int]));
            assert(targets.deep_view() =~= ov.subrange(off1 as int, off + 1));
            off = off + 1;
            j = j + 1;
        }
        let ghost nc_old = new_copies.deep_view();
        new_copies.push((plan.to_copy[i].0.clone(), (rn, targets)));
        proof {
            let nv = new_copies.deep_view();
            let f = |x: CopyModel| copy_goal_side(x);
            assert(nv =~= nc_old.push(nv[i as int]));
            nc_old.lemma_push_map_commute(f, nv[i as int]);
            nc_old.map_values(f).lemma_flatten_push(f(nv[i as int]));
            assert(copy_goal_side(nv[i as int]) =~= ov.subrange(off0 as int, off as int));
            assert(nv.map_values(f).flatten() =~= ov.subrange(m as int, off as int));
            assert(p.copies.take(i + 1) =~= p.copies.take(i as int).push(cp));
            assert forall|q: int| 0 <= q < nv.len() implies (#[trigger] nv[q]).0 == p.copies.take(i + 1)[q].0
                && (nv[q].1.0 is Some) == (p.copies.take(i + 1)[q].1.0 is Some)
                && nv[q].1.1.len() == p.copies.take(i + 1)[q].1.1.len() by {
                if q < i {
                    assert(nv[q] == nc_old[q]);
                }
            }
        }
        i = i + 1;
    }
    proof {
        assert(p.copies.take(i as int) =~= p.copies);
        assert(gs.take(i as int) =~= gs);
    }
    let t = FileTranformations {
        to_delete: plan.to_delete,
        to_keep: plan.to_keep,
        to_copy: new_copies,
        to_move: new_moves,
        to_transfer: plan.to_transfer,
        temp_paths: temps,
    };
    proof {
        let q = t.plan_view();
        let dq = destinations(q.moves, q.copies);
        assert(dq =~= ov);
        assert(move_sources(q.moves) =~= move_sources(p.moves));
    }
    Ok(t)
}

/// Computes the file operations that turn `current_state` into
/// `goal_state` (each a list of (path, file) with distinct paths).
///
/// Files already in place are kept; the goal's files are produced by moving
/// current files with the same content, copying them, or, for contents the
/// current state lacks, fetching them (`to_transfer`); current files nobody
/// needs are deleted. A destination that is still in use, or written twice,
/// goes through a temporary path next to it that `existing_file_predicate`
/// reports as free; `temp_paths` records which.
///
/// Fails with `HashConversionError` exactly when a hash of either state is
/// not the hex form of 16 bytes. Otherwise it fails only with
/// `TempPathUnavailable`, when some destination needs a temporary path and
/// `existing_file_predicate` reported taken each of the `u64::MAX` random
/// candidates tried for it; that needs a path that holds different
/// contents in the two states (`lemma_temp_only_for_changed_paths`), so
/// without one the operations are always computed.
pub fn compute<F: Fn(&str) -> bool>(
    current_state: &Vec<(String, RepositoryFile)>,
    goal_state: &Vec<(String, RepositoryFile)>,
    existing_file_predicate: F,
) -> (r: Result<FileTranformations, FileProcessError>)
    requires
        state_keys(state_model(current_state@)).no_duplicates(),
        state_keys(state_model(goal_state@)).no_duplicates(),
        forall|s: &str| #[trigger] call_requires(existing_file_predicate, (s,)),
    ensures
        (r == Err::<FileTranformations, FileProcessError>(FileProcessError::HashConversionError))
            <==> !(hashes_valid(state_model(current_state@)) && hashes_valid(state_model(goal_state@))),
        r is Err ==> r == Err::<FileTranformations, FileProcessError>(FileProcessError::HashConversionError)
            || r == Err::<FileTranformations, FileProcessError>(FileProcessError::TempPathUnavailable),
        r matches Ok(t) ==> exists|p: PlanModel|
            plan_ok(state_model(current_state@), state_model(goal_state@), p)
                && #[trigger] with_temp_paths(p, t, existing_file_predicate),
        r == Err::<FileTranformations, FileProcessError>(FileProcessError::TempPathUnavailable) ==> exists|p: PlanModel|
            plan_ok(state_model(current_state@), state_model(goal_state@), p)
                && #[trigger] temp_search_failed(p, existing_file_predicate),
        r == Err::<FileTranformations, FileProcessError>(FileProcessError::TempPathUnavailable)
            ==> some_path_changes(state_model(current_state@), state_model(goal_state@)),
{
    let plan = match plan_transformations(current_state, goal_state) {
        Ok(plan) => plan,
        Err(e) => {
            return Err(e);
        },
    };
    let ghost pv = plan.plan_view();
    let r = put_temp_paths(plan, &existing_file_predicate);
    proof {
        if r is Ok {
            assert(with_temp_paths(pv, r->Ok_0, existing_file_predicate));
        } else {
            assert(temp_search_failed(pv, existing_file_predicate));
            assert(needs_some_temp(pv));
            lemma_temp_only_for_changed_paths(state_model(current_state@), state_model(goal_state@), pv);
        }
    }
    r
}

/// Some path is in both states with different contents.
pub open spec fn some_path_changes(cur: Seq<(Seq<char>, Seq<char>)>, goal: Seq<(Seq<char>, Seq<char>)>) -> bool {
    exists|q: Seq<char>| #[trigger] path_hash(cur, q) is Some && path_hash(goal, q) is Some
        && path_hash(cur, q) != path_hash(goal, q)
}

/// Temporary paths are only needed where a path holds different contents in
/// the two states: destinations are goal paths produced once each, so one can
/// only be in use when it is also the source of a move or the origin of a
/// copy, that is a current path that is not kept.
pub proof fn lemma_temp_only_for_changed_paths(
    cur: Seq<(Seq<char>, Seq<char>)>,
    goal: Seq<(Seq<char>, Seq<char>)>,
    p: PlanModel,
)
    requires
        hashes_valid(goal),
        state_keys(goal).no_duplicates(),
        plan_ok(cur, goal, p),
        needs_some_temp(p),
    ensures
        some_path_changes(cur, goal),
{
    broadcast use vstd::seq_lib::lemma_multiset_commutative;

    let dp = destinations(p.moves, p.copies);
    let k = choose|k: int| 0 <= k < dp.len() && #[trigger] needs_temp(p, k);
    let d = dp[k];
    let tf = p.transfer.map_values(|t: (u128, Seq<Seq<char>>)| t.1).flatten();
    let gk = state_keys(goal);
    assert(goal_slots(p) =~= p.keep + tf + dp);
    gk.lemma_multiset_has_no_duplicates();
    assert(dp.contains(d));
    assert(goal_slots(p).to_multiset().count(d) == p.keep.to_multiset().count(d) + tf.to_multiset().count(d)
        + dp.to_multiset().count(d));
    assert(gk.to_multiset().count(d) >= 1);
    assert(gk.to_multiset().count(d) == 1);
    assert(gk.contains(d));
    lemma_path_hash_some(goal, d);
    assert(!p.keep.contains(d));
    // `d` is written once among the destinations
    assert(!dp.take(k).contains(d)) by {
        assert(dp =~= dp.take(k) + dp.skip(k));
        assert(dp.skip(k)[0] == d);
        assert(dp.skip(k).contains(d));
    }
    assert(paths_in_use(p).contains(d));
    let ms = move_sources(p.moves);
    let origins = p.copies.map_values(|x: CopyModel| x.0);
    assert(paths_in_use(p) =~= ms + origins + tf);
    assert(!tf.contains(d));
    assert(ms.contains(d) || origins.contains(d)) by {
        assert((ms + origins + tf).to_multiset().count(d) == ms.to_multiset().count(d)
            + origins.to_multiset().count(d) + tf.to_multiset().count(d));
    }
    if ms.contains(d) {
        let i = choose|i: int| 0 <= i < ms.len() && ms[i] == d;
        assert(path_hash(cur, p.moves[i].0) is Some);
    } else {
        let i = choose|i: int| 0 <= i < origins.len() && origins[i] == d;
        assert(copy_ok(cur, goal, p.keep, p.copies[i]));
    }
    assert(path_hash(cur, d) is Some);
    assert(path_hash(cur, d) != path_hash(goal, d));
    assert(path_hash(goal, d) is Some);
}

/// A repository that already is in its goal state needs no operation: every
/// file is kept, nothing is deleted, moved, renamed, copied or fetched.
pub proof fn lemma_identical_states_need_nothing(st: Seq<(Seq<char>, Seq<char>)>, p: PlanModel)
    requires
        hashes_valid(st),
        state_keys(st).no_duplicates(),
        plan_ok(st, st, p),
    ensures
        p.keep.to_multiset() =~= state_keys(st).to_multiset(),
        p.delete.len() == 0,
        p.moves.len() == 0,
        p.transfer.map_values(|t: (u128, Seq<Seq<char>>)| t.1).flatten().len() == 0,
        forall|i: int| 0 <= i < p.copies.len() ==> (#[trigger] p.copies[i]).1.0 is None && p.copies[i].1.1.len() == 0,
{
    broadcast use vstd::seq_lib::lemma_multiset_commutative;

    let ks = state_keys(st);
    ks.lemma_multiset_has_no_duplicates();
    let tf = p.transfer.map_values(|t: (u128, Seq<Seq<char>>)| t.1).flatten();
    let cg = p.copies.map_values(|x: CopyModel| copy_goal_side(x)).flatten();
    let cc = p.copies.map_values(|x: CopyModel| copy_cur_side(x)).flatten();
    let grest = tf + move_targets(p.moves) + cg;
    let crest = p.delete + move_sources(p.moves) + cc;
    assert(goal_slots(p) =~= p.keep + grest);
    assert(current_slots(p) =~= p.keep + crest);
    assert forall|q: Seq<char>| ks.contains(q) implies p.keep.contains(q) by {
        lemma_path_hash_some(st, q);
    }
    assert forall|q: Seq<char>| grest.to_multiset().count(q) == 0 && crest.to_multiset().count(q) == 0 by {
        if ks.contains(q) {
            assert(p.keep.contains(q));
            assert(ks.to_multiset().count(q) == 1);
        } else {
            assert(ks.to_multiset().count(q) == 0);
        }
    }
    assert(grest.to_multiset() =~= Multiset::empty());
    assert(crest.to_multiset() =~= Multiset::empty());
    assert(crest.to_multiset().len() == 0);
    assert(grest.to_multiset().len() == 0);
    assert(crest.len() == 0);
    assert(grest.len() == 0);
    assert(cg.len() == 0);
    assert(p.keep.to_multiset() =~= ks.to_multiset());
    assert(move_sources(p.moves).len() == p.moves.len());
    assert forall|i: int| 0 <= i < p.copies.len() implies (#[trigger] p.copies[i]).1.0 is None && p.copies[i].1.1.len() == 0 by {
        let f = |x: CopyModel| copy_goal_side(x);
        let gs = p.copies.map_values(f);
        assert(gs =~= gs.take(i) + gs.skip(i));
        vstd::seq_lib::lemma_flatten_concat(gs.take(i), gs.skip(i));
        assert(gs.skip(i).first() == copy_goal_side(p.copies[i]));
        assert(gs.skip(i).flatten() == gs.skip(i).first() + gs.skip(i).drop_first().flatten());
        assert(copy_goal_side(p.copies[i]).len() == 0);
        assert(opt_seq(p.copies[i].1.0).len() == 0);
    }
}

} // verus!
