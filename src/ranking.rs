//! The rank order of score entries: descending by score, ties kept stable.

use vstd::prelude::*;

verus! {

/// What a score entry holds, as mathematical values.
pub struct EntryView {
    pub id: usize,
    pub name: Seq<char>,
    pub color: bevy::color::Color,
    pub score: int,
}

/// Scores never rise along the sequence.
pub open spec fn ranked(s: Seq<EntryView>) -> bool {
    forall|i: int, j: int| 0 <= i < j < s.len() ==> s[i].score >= s[j].score
}

/// No two entries share an id.
pub open spec fn unique_ids(s: Seq<EntryView>) -> bool {
    forall|i: int, j: int| 0 <= i < j < s.len() ==> s[i].id != s[j].id
}

/// Some entry has this id.
pub open spec fn has_id(s: Seq<EntryView>, id: usize) -> bool {
    exists|i: int| 0 <= i < s.len() && s[i].id == id
}

/// The ids of all entries.
pub open spec fn ids_of(s: Seq<EntryView>) -> Set<usize> {
    Set::new(|id: usize| has_id(s, id))
}

/// The position of the entry with this id (meaningful only where there is one).
pub open spec fn index_of(s: Seq<EntryView>, id: usize) -> int {
    choose|i: int| 0 <= i < s.len() && s[i].id == id
}

/// The entry with this id (meaningful only where there is one).
pub open spec fn entry_of(s: Seq<EntryView>, id: usize) -> EntryView {
    s[index_of(s, id)]
}

/// The score of the player with this id; an unknown player has score zero.
pub open spec fn score_of(s: Seq<EntryView>, id: usize) -> int {
    if has_id(s, id) {
        entry_of(s, id).score
    } else {
        0
    }
}

/// The entry with its score replaced.
pub open spec fn with_score(e: EntryView, score: int) -> EntryView {
    EntryView { score, ..e }
}

/// An entry of `rest` at index `i` stays ahead of an entry with `score` that stood
/// at index `k` before the sort: it scores higher, or as high and came first.
pub open spec fn goes_before(e: EntryView, i: int, score: int, k: int) -> bool {
    e.score > score || (e.score == score && i < k)
}

/// The first index, from `from` on, whose entry does not go before the moved one.
pub open spec fn settle_pos(rest: Seq<EntryView>, score: int, k: int, from: int) -> int
    decreases rest.len() - from,
{
    if from >= rest.len() || !goes_before(rest[from], from, score, k) {
        from
    } else {
        settle_pos(rest, score, k, from + 1)
    }
}

/// The stable descending sort of a sequence in which every entry but `x` is in
/// rank order: `rest` is the sequence without `x`, and `x` stood at index `k`.
pub open spec fn place(rest: Seq<EntryView>, x: EntryView, k: int) -> Seq<EntryView> {
    rest.insert(settle_pos(rest, x.score, k, 0), x)
}

proof fn lemma_settle_pos(rest: Seq<EntryView>, score: int, k: int, from: int)
    requires
        0 <= from <= rest.len(),
        ranked(rest),
        forall|i: int| 0 <= i < from ==> goes_before(rest[i], i, score, k),
    ensures
        from <= settle_pos(rest, score, k, from) <= rest.len(),
        forall|i: int|
            0 <= i < settle_pos(rest, score, k, from) ==> goes_before(rest[i], i, score, k),
        forall|i: int|
            settle_pos(rest, score, k, from) <= i < rest.len() ==> !goes_before(
                rest[i],
                i,
                score,
                k,
            ),
    decreases rest.len() - from,
{
    if from >= rest.len() || !goes_before(rest[from], from, score, k) {
        assert forall|i: int| from <= i < rest.len() implies !goes_before(rest[i], i, score, k) by {
            assert(rest[from].score >= rest[i].score);
        }
    } else {
        lemma_settle_pos(rest, score, k, from + 1);
    }
}

/// Placing an entry into a ranked sequence yields a ranked sequence that holds
/// the others in their order and the entry at the one position where everything
/// ahead of it scores higher or as high and came first, and everything behind it
/// scores lower or as low and came later.
pub proof fn lemma_place_stable(rest: Seq<EntryView>, x: EntryView, k: int)
    requires
        ranked(rest),
    ensures
        ranked(place(rest, x, k)),
        ({
            let p = settle_pos(rest, x.score, k, 0);
            &&& 0 <= p <= rest.len()
            &&& place(rest, x, k)[p] == x
            &&& place(rest, x, k).remove(p) == rest
            &&& forall|i: int| 0 <= i < p ==> goes_before(rest[i], i, x.score, k)
            &&& forall|i: int| p <= i < rest.len() ==> !goes_before(rest[i], i, x.score, k)
        }),
{
    lemma_settle_pos(rest, x.score, k, 0);
    let p = settle_pos(rest, x.score, k, 0);
    let r = place(rest, x, k);
    assert(r.remove(p) =~= rest);
    assert forall|i: int, j: int| 0 <= i < j < r.len() implies r[i].score >= r[j].score by {
        if j < p {
            assert(r[i] == rest[i] && r[j] == rest[j]);
        } else if j == p {
            assert(r[i] == rest[i]);
        } else if i < p {
            assert(r[i] == rest[i] && r[j] == rest[j - 1]);
            assert(goes_before(rest[i], i, x.score, k));
            assert(!goes_before(rest[j - 1], j - 1, x.score, k));
        } else if i == p {
            assert(r[j] == rest[j - 1]);
            assert(!goes_before(rest[j - 1], j - 1, x.score, k));
        } else {
            assert(r[i] == rest[i - 1] && r[j] == rest[j - 1]);
        }
    }
}

/// Placing keeps the entries, adds `x`, and keeps ids unique when `x`'s id is new.
pub proof fn lemma_place_entries(rest: Seq<EntryView>, x: EntryView, k: int)
    requires
        ranked(rest),
        unique_ids(rest),
        !has_id(rest, x.id),
    ensures
        unique_ids(place(rest, x, k)),
        place(rest, x, k).len() == rest.len() + 1,
        forall|id: usize| has_id(place(rest, x, k), id) <==> (has_id(rest, id) || id == x.id),
        forall|id: usize|
            id != x.id && has_id(rest, id) ==> entry_of(place(rest, x, k), id) == entry_of(rest, id),
        forall|id: usize| id != x.id ==> score_of(place(rest, x, k), id) == score_of(rest, id),
        entry_of(place(rest, x, k), x.id) == x,
        score_of(place(rest, x, k), x.id) == x.score,
{
    lemma_settle_pos(rest, x.score, k, 0);
    let p = settle_pos(rest, x.score, k, 0);
    let r = place(rest, x, k);
    assert forall|i: int, j: int| 0 <= i < j < r.len() implies r[i].id != r[j].id by {
        if i != p && j != p {
            let a = if i < p { i } else { i - 1 };
            let b = if j < p { j } else { j - 1 };
            assert(r[i] == rest[a] && r[j] == rest[b]);
        } else if i == p {
            assert(r[j] == rest[j - 1]);
        } else {
            assert(r[i] == rest[i]);
        }
    }
    assert forall|id: usize| has_id(r, id) <==> (has_id(rest, id) || id == x.id) by {
        if has_id(r, id) {
            let i = choose|i: int| 0 <= i < r.len() && r[i].id == id;
            if i < p {
                assert(r[i] == rest[i]);
            } else if i > p {
                assert(r[i] == rest[i - 1]);
            }
        }
        if has_id(rest, id) {
            let j = choose|j: int| 0 <= j < rest.len() && rest[j].id == id;
            if j < p {
                assert(r[j] == rest[j]);
            } else {
                assert(r[j + 1] == rest[j]);
            }
        }
        if id == x.id {
            assert(r[p] == x);
        }
    }
    assert forall|id: usize| id != x.id && has_id(rest, id) implies entry_of(r, id) == entry_of(
        rest,
        id,
    ) by {
        let j = index_of(rest, id);
        let i = index_of(r, id);
        let jj = if j < p { j } else { j + 1 };
        assert(r[jj] == rest[j]);
        assert(i == jj);
    }
    assert forall|id: usize| id != x.id implies score_of(r, id) == score_of(rest, id) by {
        if has_id(rest, id) {
            assert(has_id(r, id));
            let j = index_of(rest, id);
            let i = index_of(r, id);
            let jj = if j < p { j } else { j + 1 };
            assert(r[jj] == rest[j]);
            assert(i == jj);
        } else {
            assert(!has_id(r, id));
        }
    }
    assert(has_id(r, x.id));
    assert(r[p] == x);
    assert(index_of(r, x.id) == p);
}

/// The sequence with the entry at `k` taken out keeps the others.
proof fn lemma_remove(s: Seq<EntryView>, k: int)
    requires
        unique_ids(s),
        0 <= k < s.len(),
    ensures
        ranked(s) ==> ranked(s.remove(k)),
        unique_ids(s.remove(k)),
        forall|id: usize| has_id(s.remove(k), id) <==> (has_id(s, id) && id != s[k].id),
        forall|id: usize|
            id != s[k].id && has_id(s, id) ==> entry_of(s.remove(k), id) == entry_of(s, id),
        index_of(s, s[k].id) == k,
{
    let r = s.remove(k);
    assert forall|i: int, j: int| 0 <= i < j < r.len() implies r[i].id != r[j].id by {
        let a = if i < k { i } else { i + 1 };
        let b = if j < k { j } else { j + 1 };
        assert(r[i] == s[a] && r[j] == s[b]);
    }
    if ranked(s) {
        assert forall|i: int, j: int| 0 <= i < j < r.len() implies r[i].score >= r[j].score by {
            let a = if i < k { i } else { i + 1 };
            let b = if j < k { j } else { j + 1 };
            assert(r[i] == s[a] && r[j] == s[b]);
        }
    }
    assert forall|id: usize| has_id(r, id) <==> (has_id(s, id) && id != s[k].id) by {
        if has_id(r, id) {
            let i = choose|i: int| 0 <= i < r.len() && r[i].id == id;
            let a = if i < k { i } else { i + 1 };
            assert(r[i] == s[a]);
        }
        if has_id(s, id) && id != s[k].id {
            let j = choose|j: int| 0 <= j < s.len() && s[j].id == id;
            if j < k {
                assert(r[j] == s[j]);
            } else {
                assert(r[j - 1] == s[j]);
            }
        }
    }
    assert forall|id: usize| id != s[k].id && has_id(s, id) implies entry_of(r, id) == entry_of(
        s,
        id,
    ) by {
        assert(has_id(r, id));
        let i = index_of(r, id);
        let a = if i < k { i } else { i + 1 };
        assert(r[i] == s[a]);
    }
    assert(has_id(s, s[k].id));
}

/// The entries after the player with `id` is given `score` and ranked anew;
/// without such a player, the entries unchanged.
pub open spec fn rescored(s: Seq<EntryView>, id: usize, score: int) -> Seq<EntryView> {
    if has_id(s, id) {
        let k = index_of(s, id);
        place(s.remove(k), with_score(s[k], score), k)
    } else {
        s
    }
}

/// The entries after adding `amount` to the score of the player with `id`.
pub open spec fn incremented(s: Seq<EntryView>, id: usize, amount: int) -> Seq<EntryView> {
    rescored(s, id, score_of(s, id) + amount)
}

/// The entries after a new player joins with score zero; a known id changes nothing.
pub open spec fn added(s: Seq<EntryView>, e: EntryView) -> Seq<EntryView> {
    if has_id(s, e.id) {
        s
    } else {
        place(s, with_score(e, 0), s.len() as int)
    }
}

/// The entries without the player with `id`.
pub open spec fn removed(s: Seq<EntryView>, id: usize) -> Seq<EntryView> {
    if has_id(s, id) {
        s.remove(index_of(s, id))
    } else {
        s
    }
}

/// The entries with every score set to zero, in the same order.
pub open spec fn zeroed(s: Seq<EntryView>) -> Seq<EntryView> {
    s.map_values(|e: EntryView| with_score(e, 0))
}

/// Giving one player a new score keeps the table ranked, keeps its ids, sets
/// that player's score and leaves every other entry as it was.
pub proof fn lemma_rescored(s: Seq<EntryView>, id: usize, score: int)
    requires
        ranked(s),
        unique_ids(s),
    ensures
        ranked(rescored(s, id, score)),
        unique_ids(rescored(s, id, score)),
        ids_of(rescored(s, id, score)) == ids_of(s),
        has_id(s, id) ==> score_of(rescored(s, id, score), id) == score,
        forall|other: usize|
            other != id ==> score_of(rescored(s, id, score), other) == score_of(s, other),
        forall|other: usize|
            other != id && has_id(s, other) ==> entry_of(rescored(s, id, score), other) == entry_of(
                s,
                other,
            ),
{
    if has_id(s, id) {
        let k = index_of(s, id);
        let rest = s.remove(k);
        let x = with_score(s[k], score);
        lemma_remove(s, k);
        lemma_place_stable(rest, x, k);
        lemma_place_entries(rest, x, k);
        assert(ids_of(rescored(s, id, score)) =~= ids_of(s));
    }
}

/// Adding a player with a new id keeps the table ranked with unique ids, adds
/// that player with score zero, and leaves every other entry as it was.
pub proof fn lemma_added(s: Seq<EntryView>, e: EntryView)
    requires
        ranked(s),
        unique_ids(s),
    ensures
        ranked(added(s, e)),
        unique_ids(added(s, e)),
        ids_of(added(s, e)) == ids_of(s).insert(e.id),
        has_id(added(s, e), e.id),
        !has_id(s, e.id) ==> added(s, e).len() == s.len() + 1,
        !has_id(s, e.id) ==> entry_of(added(s, e), e.id) == with_score(e, 0),
        forall|id: usize|
            id != e.id && has_id(s, id) ==> entry_of(added(s, e), id) == entry_of(s, id),
{
    if !has_id(s, e.id) {
        lemma_place_stable(s, with_score(e, 0), s.len() as int);
        lemma_place_entries(s, with_score(e, 0), s.len() as int);
    }
    assert(ids_of(added(s, e)) =~= ids_of(s).insert(e.id));
}

/// Taking a player out keeps the table ranked with unique ids, drops that id,
/// and leaves every other entry as it was.
pub proof fn lemma_removed(s: Seq<EntryView>, id: usize)
    requires
        ranked(s),
        unique_ids(s),
    ensures
        ranked(removed(s, id)),
        unique_ids(removed(s, id)),
        ids_of(removed(s, id)) == ids_of(s).remove(id),
        forall|other: usize|
            other != id && has_id(s, other) ==> entry_of(removed(s, id), other) == entry_of(
                s,
                other,
            ),
{
    if has_id(s, id) {
        let k = index_of(s, id);
        lemma_remove(s, k);
    }
    assert(ids_of(removed(s, id)) =~= ids_of(s).remove(id));
}

/// Zeroing every score keeps the table ranked with the same ids.
pub proof fn lemma_zeroed(s: Seq<EntryView>)
    requires
        unique_ids(s),
    ensures
        ranked(zeroed(s)),
        unique_ids(zeroed(s)),
        ids_of(zeroed(s)) == ids_of(s),
        zeroed(s).len() == s.len(),
        forall|i: int| 0 <= i < s.len() ==> zeroed(s)[i] == with_score(#[trigger] s[i], 0),
{
    let z = zeroed(s);
    assert forall|id: usize| has_id(z, id) <==> has_id(s, id) by {
        if has_id(z, id) {
            let i = choose|i: int| 0 <= i < z.len() && z[i].id == id;
            assert(z[i].id == s[i].id);
        }
        if has_id(s, id) {
            let i = choose|i: int| 0 <= i < s.len() && s[i].id == id;
            assert(z[i].id == s[i].id);
        }
    }
    assert(ids_of(z) =~= ids_of(s));
}

/// The entries after each player of `players` is added in turn to an empty table.
pub open spec fn added_all(players: Seq<EntryView>) -> Seq<EntryView>
    decreases players.len(),
{
    if players.len() == 0 {
        Seq::empty()
    } else {
        added(added_all(players.drop_last()), players.last())
    }
}

/// Adding players with distinct ids, one after another, to an empty table
/// gives a ranked table that holds exactly those players, each with score zero.
pub proof fn lemma_added_all(players: Seq<EntryView>)
    requires
        unique_ids(players),
    ensures
        ranked(added_all(players)),
        unique_ids(added_all(players)),
        added_all(players).len() == players.len(),
        ids_of(added_all(players)) == ids_of(players),
        forall|i: int|
            0 <= i < players.len() ==> entry_of(added_all(players), #[trigger] players[i].id)
                == with_score(players[i], 0),
    decreases players.len(),
{
    if players.len() == 0 {
        assert(ids_of(added_all(players)) =~= ids_of(players));
    } else {
        let init = players.drop_last();
        let e = players.last();
        let n = players.len() - 1;
        assert(unique_ids(init));
        lemma_added_all(init);
        let t = added_all(init);
        assert(!has_id(init, e.id)) by {
            if has_id(init, e.id) {
                let j = choose|j: int| 0 <= j < init.len() && init[j].id == e.id;
                assert(players[j].id == players[n].id);
            }
        }
        assert(!ids_of(t).contains(e.id));
        lemma_added(t, e);
        assert forall|id: usize| has_id(players, id) <==> (has_id(init, id) || id == e.id) by {
            if has_id(players, id) {
                let j = choose|j: int| 0 <= j < players.len() && players[j].id == id;
                if j < n {
                    assert(init[j] == players[j]);
                }
            }
            if has_id(init, id) {
                let j = choose|j: int| 0 <= j < init.len() && init[j].id == id;
                assert(players[j] == init[j]);
            }
        }
        assert(ids_of(added_all(players)) =~= ids_of(players));
        assert forall|i: int| 0 <= i < players.len() implies entry_of(
            added_all(players),
            #[trigger] players[i].id,
        ) == with_score(players[i], 0) by {
            if i < n {
                assert(players[i] == init[i]);
                assert(players[i].id != e.id);
                assert(ids_of(t).contains(init[i].id));
            }
        }
    }
}

/// Adding `a` and then `b` to a known player's score raises it by `a + b`;
/// for an unknown id the table stays as it is.
pub proof fn lemma_increment_twice(s: Seq<EntryView>, id: usize, a: int, b: int)
    requires
        ranked(s),
        unique_ids(s),
    ensures
        has_id(s, id) ==> score_of(incremented(incremented(s, id, a), id, b), id) == score_of(
            s,
            id,
        ) + a + b,
        !has_id(s, id) ==> incremented(s, id, a) == s,
{
    lemma_rescored(s, id, score_of(s, id) + a);
    let t = incremented(s, id, a);
    if has_id(s, id) {
        assert(ids_of(s).contains(id));
        assert(has_id(t, id));
    }
    lemma_rescored(t, id, score_of(t, id) + b);
}

/// A table emptied by `clear` knows no id, so a player with any id, one used
/// before included, joins it and is then its only entry, with score zero.
pub proof fn lemma_clear_then_add(e: EntryView)
    ensures
        !has_id(Seq::<EntryView>::empty(), e.id),
        added(Seq::<EntryView>::empty(), e) == seq![with_score(e, 0)],
{
    assert(added(Seq::<EntryView>::empty(), e) =~= seq![with_score(e, 0)]);
}

/// Where the entry at index `i` of `rest.insert(k, x)` ends up in
/// `place(rest, x, k)`, given that `x` lands at index `p`.
pub open spec fn placed_index(i: int, k: int, p: int) -> int {
    if i == k {
        p
    } else {
        let r = if i < k { i } else { i - 1 };
        if r < p { r } else { r + 1 }
    }
}

/// `place` is the stable descending sort: with `x` at index `k` among the
/// ranked entries `rest`, its result is ranked, holds each entry of
/// `rest.insert(k, x)` at one distinct index, and keeps every two entries of
/// equal score in the order they had.
pub proof fn lemma_place_is_stable_sort(rest: Seq<EntryView>, x: EntryView, k: int)
    requires
        ranked(rest),
        0 <= k <= rest.len(),
    ensures
        ({
            let pre = rest.insert(k, x);
            let out = place(rest, x, k);
            let p = settle_pos(rest, x.score, k, 0);
            &&& ranked(out)
            &&& out.len() == pre.len()
            &&& forall|i: int|
                0 <= i < pre.len() ==> 0 <= #[trigger] placed_index(i, k, p) < out.len()
                    && out[placed_index(i, k, p)] == pre[i]
            &&& forall|i: int, j: int|
                0 <= i < j < pre.len() ==> placed_index(i, k, p) != placed_index(j, k, p)
            &&& forall|i: int, j: int|
                0 <= i < j < pre.len() && pre[i].score == pre[j].score ==> placed_index(i, k, p)
                    < placed_index(j, k, p)
        }),
{
    lemma_place_stable(rest, x, k);
    let pre = rest.insert(k, x);
    let out = place(rest, x, k);
    let p = settle_pos(rest, x.score, k, 0);
    assert forall|i: int| 0 <= i < pre.len() implies 0 <= #[trigger] placed_index(i, k, p)
        < out.len() && out[placed_index(i, k, p)] == pre[i] by {
        if i != k {
            let r = if i < k { i } else { i - 1 };
            assert(pre[i] == rest[r]);
        }
    }
    assert forall|i: int, j: int|
        0 <= i < j < pre.len() && pre[i].score == pre[j].score implies placed_index(i, k, p)
        < placed_index(j, k, p) by {
        if i == k {
            assert(pre[j] == rest[j - 1]);
            assert(!goes_before(rest[j - 1], j - 1, x.score, k) || j - 1 < p);
        } else if j == k {
            assert(pre[i] == rest[i]);
            assert(goes_before(rest[i], i, x.score, k));
        }
    }
}

/// The sequences that `added` and `rescored` sort: a new entry appended at the
/// end, and the entry at `k` given a new score in place.
pub proof fn lemma_sorted_inputs(s: Seq<EntryView>, x: EntryView, k: int)
    requires
        0 <= k < s.len(),
    ensures
        s.insert(s.len() as int, x) == s.push(x),
        s.remove(k).insert(k, x) == s.update(k, x),
{
    assert(s.insert(s.len() as int, x) =~= s.push(x));
    assert(s.remove(k).insert(k, x) =~= s.update(k, x));
}

} // verus!
