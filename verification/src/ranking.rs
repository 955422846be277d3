//! Keeping the best distinct grids: signatures and the ranked top list.
use vstd::prelude::*;
use crate::derive::{chars_lex_less, lemma_lex_irreflexive, lemma_lex_total, lemma_lex_transitive, lex_less};
use crate::grid::{Direction, EntryModel, Grid, PlacedEntry};
use crate::order::{
    insert_pos_by, lemma_insert_pos_by, lemma_insert_pos_props, lemma_map_multiset, lemma_sorted_unique,
    lemma_stable_sort_multiset, lemma_stable_sort_sorted, stable_sort, strict_order, total_order,
};
use crate::search::{grid_ready, grid_score, lemma_score_order, score_is_less, score_less, Score};
use crate::text::{chars_eq, decimal, push_all, push_decimal, push_str};

verus! {

// ---------------------------------------------------------------------------
// Signatures
// ---------------------------------------------------------------------------

pub open spec fn direction_letter(d: Direction) -> char {
    match d {
        Direction::Across => 'A',
        Direction::Down => 'D',
    }
}

/// `x:y:A|D:track:ANSWER` for one entry.
pub open spec fn entry_key(e: EntryModel) -> Seq<char> {
    decimal(e.x) + seq![':'] + decimal(e.y) + seq![':', direction_letter(e.direction), ':']
        + decimal(e.candidate.track_index) + seq![':'] + e.candidate.normalized
}

pub open spec fn entry_key_fn() -> spec_fn(EntryModel) -> Seq<char> {
    |e: EntryModel| entry_key(e)
}

pub open spec fn entry_keys(es: Seq<EntryModel>) -> Seq<Seq<char>> {
    es.map_values(entry_key_fn())
}

/// Keys are sorted as strings are: by code point, lexicographically.
pub open spec fn key_order() -> spec_fn(Seq<char>, Seq<char>) -> bool {
    |a: Seq<char>, b: Seq<char>| lex_less(a, b)
}

/// The keys joined by `|`.
pub open spec fn join_keys(ks: Seq<Seq<char>>) -> Seq<char>
    decreases ks.len(),
{
    if ks.len() == 0 {
        Seq::empty()
    } else if ks.len() == 1 {
        ks[0]
    } else {
        join_keys(ks.drop_last()) + seq!['|'] + ks.last()
    }
}

/// What identifies a layout: the keys of its entries, sorted and joined.
pub open spec fn signature(g: Grid) -> Seq<char> {
    join_keys(stable_sort(entry_keys(g.entries_model()), key_order()))
}

/// Key order is a strict total order.
pub proof fn lemma_key_order()
    ensures
        strict_order(key_order()),
        total_order(key_order()),
{
    assert forall|a: Seq<char>| !#[trigger] (key_order())(a, a) by {
        lemma_lex_irreflexive(a);
    }
    assert forall|a: Seq<char>, b: Seq<char>, c: Seq<char>|
        #[trigger] (key_order())(a, b) && #[trigger] (key_order())(b, c) implies (key_order())(a, c) by {
        lemma_lex_transitive(a, b, c);
    }
    assert forall|a: Seq<char>, b: Seq<char>| a != b implies #[trigger] (key_order())(a, b) || (key_order())(
        b,
        a,
    ) by {
        lemma_lex_total(a, b);
    }
}

/// A layout's signature does not depend on the order in which its entries
/// were placed: grids holding the same entries (each as often) have the
/// same signature.
pub proof fn lemma_signature_order_free(g1: Grid, g2: Grid)
    requires
        g1.entries_model().to_multiset() == g2.entries_model().to_multiset(),
    ensures
        signature(g1) == signature(g2),
{
    let k1 = entry_keys(g1.entries_model());
    let k2 = entry_keys(g2.entries_model());
    lemma_map_multiset(g1.entries_model(), g2.entries_model(), entry_key_fn());
    lemma_key_order();
    lemma_stable_sort_multiset(k1, key_order());
    lemma_stable_sort_multiset(k2, key_order());
    lemma_stable_sort_sorted(k1, key_order());
    lemma_stable_sort_sorted(k2, key_order());
    lemma_sorted_unique(stable_sort(k1, key_order()), stable_sort(k2, key_order()), key_order());
}

pub open spec fn keys_view(v: Seq<Vec<char>>) -> Seq<Seq<char>> {
    v.map_values(|k: Vec<char>| k@)
}

fn entry_key_chars(e: &PlacedEntry) -> (r: Vec<char>)
    ensures
        r@ == entry_key(e@),
{
    let mut out: Vec<char> = Vec::new();
    push_decimal(&mut out, e.x as u128);
    out.push(':');
    push_decimal(&mut out, e.y as u128);
    out.push(':');
    match e.direction {
        Direction::Across => out.push('A'),
        Direction::Down => out.push('D'),
    }
    out.push(':');
    push_decimal(&mut out, e.candidate.track_index as u128);
    out.push(':');
    push_str(&mut out, e.candidate.normalized.as_str());
    assert(out@ =~= entry_key(e@));
    out
}

fn sort_keys(keys: &Vec<Vec<char>>) -> (r: Vec<Vec<char>>)
    ensures
        keys_view(r@) == stable_sort(keys_view(keys@), key_order()),
{
    let ghost ks = keys_view(keys@);
    let mut sorted: Vec<Vec<char>> = Vec::new();
    let mut i: usize = 0;
    assert(ks.take(0) =~= Seq::<Seq<char>>::empty());
    while i < keys.len()
        invariant
            i <= keys.len(),
            ks == keys_view(keys@),
            keys_view(sorted@) == stable_sort(ks.take(i as int), key_order()),
        decreases keys.len() - i,
    {
        let x = keys[i].clone();
        assert(x@ == ks[i as int]);
        let mut p: usize = 0;
        let mut found = false;
        while p < sorted.len() && !found
            invariant
                p <= sorted.len(),
                i < keys.len(),
                ks == keys_view(keys@),
                x@ == ks[i as int],
                found ==> p < sorted.len() && (key_order())(x@, keys_view(sorted@)[p as int]),
                forall|q: int| 0 <= q < p ==> !(key_order())(x@, #[trigger] keys_view(sorted@)[q]),
            decreases (sorted.len() - p) as int + (if found { 0int } else { 1int }),
        {
            assert(keys_view(sorted@)[p as int] == sorted@[p as int]@);
            if chars_lex_less(&x, &sorted[p]) {
                found = true;
            } else {
                p = p + 1;
            }
        }
        proof {
            if p < sorted.len() {
                assert(keys_view(sorted@)[p as int] == sorted@[p as int]@);
            }
            lemma_insert_pos_by(keys_view(sorted@), x@, key_order(), p as int);
            assert(ks.take(i + 1).drop_last() =~= ks.take(i as int));
            assert(ks.take(i + 1).last() == ks[i as int]);
        }
        let ghost before = keys_view(sorted@);
        let ghost xv = x@;
        sorted.insert(p, x);
        assert(keys_view(sorted@) =~= before.insert(p as int, xv));
        i = i + 1;
    }
    assert(ks.take(keys.len() as int) =~= ks);
    sorted
}

fn join_chars(keys: &Vec<Vec<char>>) -> (r: Vec<char>)
    ensures
        r@ == join_keys(keys_view(keys@)),
{
    let ghost ks = keys_view(keys@);
    let mut out: Vec<char> = Vec::new();
    let mut i: usize = 0;
    assert(ks.take(0) =~= Seq::<Seq<char>>::empty());
    while i < keys.len()
        invariant
            i <= keys.len(),
            ks == keys_view(keys@),
            out@ == join_keys(ks.take(i as int)),
        decreases keys.len() - i,
    {
        assert(ks.take(i + 1).drop_last() =~= ks.take(i as int));
        assert(ks.take(i + 1).last() == keys@[i as int]@);
        if i > 0 {
            out.push('|');
        } else {
            assert(out@ =~= Seq::<char>::empty());
        }
        push_all(&mut out, &keys[i]);
        if i == 0 {
            assert(out@ =~= ks.take(1)[0]);
        }
        i = i + 1;
    }
    assert(ks.take(keys.len() as int) =~= ks);
    out
}

/// The signature of a grid (see `signature`).
pub fn grid_signature(grid: &Grid) -> (r: Vec<char>)
    ensures
        r@ == signature(*grid),
{
    let ghost es = grid.entries_model();
    let mut keys: Vec<Vec<char>> = Vec::new();
    let mut i: usize = 0;
    while i < grid.entries.len()
        invariant
            i <= grid.entries@.len(),
            es == grid.entries_model(),
            keys_view(keys@) == entry_keys(es.take(i as int)),
        decreases grid.entries.len() - i,
    {
        let k = entry_key_chars(&grid.entries[i]);
        assert(es[i as int] == grid.entries@[i as int]@);
        let ghost before = keys_view(keys@);
        keys.push(k);
        assert(keys_view(keys@) =~= before.push(entry_key(es[i as int])));
        assert(entry_keys(es.take(i + 1)) =~= entry_keys(es.take(i as int)).push(entry_key(es[i as int])));
        i = i + 1;
    }
    assert(es.take(i as int) =~= es);
    let sorted = sort_keys(&keys);
    join_chars(&sorted)
}

// ---------------------------------------------------------------------------
// The ranked top list
// ---------------------------------------------------------------------------

/// A grid kept with its score and signature.
pub struct Ranked {
    pub grid: Grid,
    pub score: Score,
    pub signature: Vec<char>,
}

pub open spec fn ranked_ok(r: Ranked) -> bool {
    &&& grid_ready(r.grid)
    &&& r.score == grid_score(r.grid)
    &&& r.signature@ == signature(r.grid)
}

pub open spec fn all_ranked_ok(v: Seq<Ranked>) -> bool {
    forall|i: int| 0 <= i < v.len() ==> ranked_ok(#[trigger] v[i])
}

pub open spec fn grids_of(v: Seq<Ranked>) -> Seq<Grid> {
    v.map_values(|r: Ranked| r.grid)
}

/// `a` scores strictly higher than `b`.
pub open spec fn better(a: Grid, b: Grid) -> bool {
    score_less(grid_score(b), grid_score(a))
}

pub open spec fn better_order() -> spec_fn(Grid, Grid) -> bool {
    |a: Grid, b: Grid| better(a, b)
}

/// Best first: no grid scores higher than one before it.
pub open spec fn ranked_desc(s: Seq<Grid>) -> bool {
    forall|i: int, j: int| 0 <= i < j < s.len() ==> !better(#[trigger] s[j], #[trigger] s[i])
}

pub open spec fn distinct_signatures(s: Seq<Grid>) -> bool {
    forall|i: int, j: int|
        0 <= i < j < s.len() ==> signature(#[trigger] s[i]) != signature(#[trigger] s[j])
}

pub open spec fn has_signature(s: Seq<Grid>, sig: Seq<char>) -> bool {
    exists|i: int| 0 <= i < s.len() && signature(#[trigger] s[i]) == sig
}

/// The top list after offering `g`: unchanged if a grid with its signature
/// is already kept; else `g` goes after every grid scoring at least as
/// high, and the last grid is dropped if the list grew beyond `limit`.
pub open spec fn top_insert(best: Seq<Grid>, g: Grid, limit: int) -> Seq<Grid> {
    if has_signature(best, signature(g)) {
        best
    } else {
        let s = best.insert(insert_pos_by(best, g, better_order()), g);
        if s.len() > limit {
            s.drop_last()
        } else {
            s
        }
    }
}

/// Offers `item` to the top list `best` (see `top_insert`).
pub fn insert_top_grid(best: &mut Vec<Ranked>, item: Ranked, limit: usize)
    requires
        all_ranked_ok(old(best)@),
        ranked_ok(item),
    ensures
        all_ranked_ok(final(best)@),
        grids_of(final(best)@) == top_insert(grids_of(old(best)@), item.grid, limit as int),
{
    let ghost gs = grids_of(best@);
    let mut i: usize = 0;
    while i < best.len()
        invariant
            i <= best@.len(),
            best@ == old(best)@,
            gs == grids_of(best@),
            all_ranked_ok(best@),
            ranked_ok(item),
            forall|q: int| 0 <= q < i ==> signature(#[trigger] gs[q]) != signature(item.grid),
        decreases best.len() - i,
    {
        assert(ranked_ok(best@[i as int]));
        assert(gs[i as int] == best@[i as int].grid);
        if chars_eq(&best[i].signature, &item.signature) {
            assert(signature(gs[i as int]) == signature(item.grid));
            assert(has_signature(gs, signature(item.grid)));
            return;
        }
        i = i + 1;
    }
    assert(!has_signature(gs, signature(item.grid)));
    let mut p: usize = 0;
    let mut found = false;
    while p < best.len() && !found
        invariant
            p <= best@.len(),
            best@ == old(best)@,
            gs == grids_of(best@),
            all_ranked_ok(best@),
            ranked_ok(item),
            found ==> p < best@.len() && better(item.grid, gs[p as int]),
            forall|q: int| 0 <= q < p ==> !better(item.grid, #[trigger] gs[q]),
        decreases (best.len() - p) as int + (if found { 0int } else { 1int }),
    {
        assert(ranked_ok(best@[p as int]));
        assert(gs[p as int] == best@[p as int].grid);
        if score_is_less(&best[p].score, &item.score) {
            found = true;
        } else {
            p = p + 1;
        }
    }
    proof {
        assert forall|q: int| 0 <= q < p implies !(better_order())(item.grid, #[trigger] gs[q]) by {}
        if p < gs.len() {
            assert((better_order())(item.grid, gs[p as int]));
        }
        lemma_insert_pos_by(gs, item.grid, better_order(), p as int);
    }
    let ghost ig = item.grid;
    best.insert(p, item);
    assert(grids_of(best@) =~= gs.insert(p as int, ig));
    if best.len() > limit {
        let ghost before = best@;
        let _removed = best.pop();
        assert(grids_of(best@) =~= grids_of(before).drop_last());
    }
    assert forall|q: int| 0 <= q < best@.len() implies ranked_ok(#[trigger] best@[q]) by {}
}

// ---------------------------------------------------------------------------
// Laws of the top list
// ---------------------------------------------------------------------------

/// Offering a grid keeps the list best first.
pub proof fn lemma_top_insert_ranked(best: Seq<Grid>, g: Grid, limit: int)
    requires
        ranked_desc(best),
    ensures
        ranked_desc(top_insert(best, g, limit)),
{
    if !has_signature(best, signature(g)) {
        let p = insert_pos_by(best, g, better_order());
        lemma_insert_pos_props(best, g, better_order());
        let s = best.insert(p, g);
        assert forall|i: int, j: int| 0 <= i < j < s.len() implies !better(#[trigger] s[j], #[trigger] s[i]) by {
            if j < p {
                assert(s[i] == best[i] && s[j] == best[j]);
            } else if j == p {
                assert(s[j] == g);
                assert(s[i] == best[i]);
                assert(!(better_order())(g, best[i]));
            } else if i == p {
                assert(s[i] == g);
                assert(s[j] == best[j - 1]);
                assert(better(g, best[p]));
                if p < j - 1 {
                    assert(!better(best[j - 1], best[p]));
                }
                lemma_score_order(grid_score(g), grid_score(best[p]), grid_score(best[j - 1]));
                lemma_score_order(grid_score(best[j - 1]), grid_score(best[p]), grid_score(g));
                lemma_score_order(grid_score(g), grid_score(best[j - 1]), grid_score(best[p]));
            } else if i < p {
                assert(s[i] == best[i] && s[j] == best[j - 1]);
            } else {
                assert(s[i] == best[i - 1] && s[j] == best[j - 1]);
            }
        }
        if s.len() > limit {
            assert forall|i: int, j: int| 0 <= i < j < s.drop_last().len() implies !better(
                #[trigger] s.drop_last()[j],
                #[trigger] s.drop_last()[i],
            ) by {
                assert(s.drop_last()[i] == s[i] && s.drop_last()[j] == s[j]);
            }
        }
    }
}

/// Offering a grid keeps the signatures in the list distinct.
pub proof fn lemma_top_insert_distinct(best: Seq<Grid>, g: Grid, limit: int)
    requires
        distinct_signatures(best),
    ensures
        distinct_signatures(top_insert(best, g, limit)),
{
    if !has_signature(best, signature(g)) {
        let p = insert_pos_by(best, g, better_order());
        lemma_insert_pos_props(best, g, better_order());
        let s = best.insert(p, g);
        assert forall|i: int, j: int| 0 <= i < j < s.len() implies signature(#[trigger] s[i]) != signature(
            #[trigger] s[j],
        ) by {
            if j < p {
                assert(s[i] == best[i] && s[j] == best[j]);
            } else if j == p {
                assert(s[i] == best[i]);
            } else if i == p {
                assert(s[j] == best[j - 1]);
            } else if i < p {
                assert(s[i] == best[i] && s[j] == best[j - 1]);
            } else {
                assert(s[i] == best[i - 1] && s[j] == best[j - 1]);
            }
        }
        if s.len() > limit {
            assert forall|i: int, j: int| 0 <= i < j < s.drop_last().len() implies signature(
                #[trigger] s.drop_last()[i],
            ) != signature(#[trigger] s.drop_last()[j]) by {
                assert(s.drop_last()[i] == s[i] && s.drop_last()[j] == s[j]);
            }
        }
    }
}

/// The list never grows beyond `limit` (once within it), and is never
/// emptied: every kept grid was kept before or is the one offered.
pub proof fn lemma_top_insert_members(best: Seq<Grid>, g: Grid, limit: int)
    requires
        best.len() <= limit,
        1 <= limit,
    ensures
        1 <= top_insert(best, g, limit).len() <= limit,
        forall|i: int|
            0 <= i < top_insert(best, g, limit).len() ==> (#[trigger] top_insert(best, g, limit)[i] == g
                || best.contains(top_insert(best, g, limit)[i])),
{
    let r = top_insert(best, g, limit);
    if !has_signature(best, signature(g)) {
        let p = insert_pos_by(best, g, better_order());
        lemma_insert_pos_props(best, g, better_order());
        let s = best.insert(p, g);
        assert forall|i: int| 0 <= i < s.len() implies (#[trigger] s[i] == g || best.contains(s[i])) by {
            if i < p {
                assert(s[i] == best[i]);
            } else if i > p {
                assert(s[i] == best[i - 1]);
            }
        }
        if s.len() > limit {
            assert forall|i: int| 0 <= i < s.drop_last().len() implies (#[trigger] s.drop_last()[i] == g
                || best.contains(s.drop_last()[i])) by {
                assert(s.drop_last()[i] == s[i]);
            }
        }
    } else {
        assert forall|i: int| 0 <= i < r.len() implies (#[trigger] r[i] == g || best.contains(r[i])) by {
            assert(best[i] == r[i]);
        }
    }
}

} // verus!
