use vstd::prelude::*;
use crate::filter::Filter;
use crate::record::{Key, Kind, Record};
use crate::ring::Ring;

verus! {

/// The keys of the records of `s` that pass the kind gate of `f`, newest
/// first.
pub open spec fn newest_first(s: Seq<Key>, f: Filter) -> Seq<Key>
    decreases s.len(),
{
    if s.len() == 0 {
        Seq::empty()
    } else {
        let rest = newest_first(s.subrange(1, s.len() as int), f);
        if f.admits_kind(s[0].0) {
            rest.push(s[0])
        } else {
            rest
        }
    }
}

/// The admissible records in the order the fold visits them: the game ring
/// newest first, then the engine ring newest first, each skipped when its
/// source gate is closed.
pub open spec fn traversal(game: Seq<Key>, engine: Seq<Key>, f: Filter) -> Seq<Key> {
    (if f.game {
        newest_first(game, f)
    } else {
        Seq::empty()
    }) + (if f.engine {
        newest_first(engine, f)
    } else {
        Seq::empty()
    })
}

/// The distinct keys of `t`, in the order of their first occurrence.
pub open spec fn first_seen(t: Seq<Key>) -> Seq<Key>
    decreases t.len(),
{
    if t.len() == 0 {
        Seq::empty()
    } else {
        let p = first_seen(t.drop_last());
        if p.contains(t.last()) {
            p
        } else {
            p.push(t.last())
        }
    }
}

/// How many times `k` occurs in `t`.
pub open spec fn occurrences(t: Seq<Key>, k: Key) -> nat
    decreases t.len(),
{
    if t.len() == 0 {
        0
    } else {
        occurrences(t.drop_last(), k) + if t.last() == k {
            1nat
        } else {
            0nat
        }
    }
}

/// The folded view of a traversal: one item per distinct key with its number
/// of occurrences, the key first seen last on top.
pub open spec fn fold(t: Seq<Key>) -> Seq<(Key, nat)> {
    let keys = first_seen(t);
    Seq::new(
        keys.len(),
        |i: int| (keys[keys.len() - 1 - i], occurrences(t, keys[keys.len() - 1 - i])),
    )
}

/// The view derived from the two rings' contents under a filter.
pub open spec fn derived(game: Seq<Key>, engine: Seq<Key>, f: Filter) -> Seq<(Key, nat)> {
    fold(traversal(game, engine, f))
}

pub open spec fn no_dup(s: Seq<Key>) -> bool {
    forall|i: int, j: int| 0 <= i < j < s.len() ==> s[i] != s[j]
}

/// One row of the folded view.
#[derive(Clone, Debug)]
pub struct ViewItem {
    pub kind: Kind,
    pub content: String,
    pub count: usize,
}

impl View for ViewItem {
    type V = (Key, nat);

    open spec fn view(&self) -> (Key, nat) {
        ((self.kind, self.content@), self.count as nat)
    }
}

pub open spec fn items_view(v: Seq<ViewItem>) -> Seq<(Key, nat)> {
    v.map_values(|i: ViewItem| i@)
}

proof fn lemma_first_seen(t: Seq<Key>)
    ensures
        no_dup(first_seen(t)),
        forall|k: Key| first_seen(t).contains(k) <==> t.contains(k),
    decreases t.len(),
{
    if t.len() > 0 {
        lemma_first_seen(t.drop_last());
        let p = first_seen(t.drop_last());
        assert forall|k: Key| p.push(t.last()).contains(k) <==> (p.contains(k) || k == t.last()) by {
            if p.push(t.last()).contains(k) {
                let i = choose|i: int| 0 <= i < p.len() + 1 && p.push(t.last())[i] == k;
                if i < p.len() {
                    assert(p[i] == k);
                }
            }
            if p.contains(k) {
                let i = choose|i: int| 0 <= i < p.len() && p[i] == k;
                assert(p.push(t.last())[i] == k);
            }
            if k == t.last() {
                assert(p.push(t.last())[p.len() as int] == k);
            }
        }
        assert forall|k: Key| t.contains(k) <==> (t.drop_last().contains(k) || k == t.last()) by {
            if t.contains(k) {
                let i = choose|i: int| 0 <= i < t.len() && t[i] == k;
                if i < t.len() - 1 {
                    assert(t.drop_last()[i] == k);
                }
            }
            if t.drop_last().contains(k) {
                let i = choose|i: int| 0 <= i < t.len() - 1 && t.drop_last()[i] == k;
                assert(t[i] == k);
            }
            if k == t.last() {
                assert(t[t.len() - 1] == k);
            }
        }
    }
}

proof fn lemma_occurrences_push(t: Seq<Key>, k: Key, x: Key)
    ensures
        occurrences(t.push(k), x) == occurrences(t, x) + if k == x {
            1nat
        } else {
            0nat
        },
{
    assert(t.push(k).drop_last() =~= t);
}

proof fn lemma_occurrences_bound(t: Seq<Key>, k: Key)
    ensures
        occurrences(t, k) <= t.len(),
        occurrences(t, k) > 0 ==> t.contains(k),
    decreases t.len(),
{
    if t.len() > 0 {
        lemma_occurrences_bound(t.drop_last(), k);
        if occurrences(t.drop_last(), k) > 0 {
            let i = choose|i: int| 0 <= i < t.len() - 1 && t.drop_last()[i] == k;
            assert(t[i] == k);
        }
        if t.last() == k {
            assert(t[t.len() - 1] == k);
        }
    }
}

proof fn lemma_newest_first_len(s: Seq<Key>, f: Filter)
    ensures
        newest_first(s, f).len() <= s.len(),
    decreases s.len(),
{
    if s.len() > 0 {
        lemma_newest_first_len(s.subrange(1, s.len() as int), f);
    }
}

/// The distinct keys met so far, each with its count.
struct Folder {
    keys: Vec<Record>,
    counts: Vec<usize>,
}

impl Folder {
    spec fn keys_view(&self) -> Seq<Key> {
        self.keys@.map_values(|r: Record| r.key())
    }

    spec fn folds(&self, t: Seq<Key>) -> bool {
        &&& self.keys_view() == first_seen(t)
        &&& self.counts@.len() == self.keys@.len()
        &&& forall|j: int|
            0 <= j < self.counts@.len() ==> self.counts@[j] == occurrences(t, self.keys_view()[j])
    }

    /// Counts one more record, opening an entry when its key is new.
    fn add(&mut self, r: &Record, Ghost(t): Ghost<Seq<Key>>)
        requires
            old(self).folds(t),
            t.len() < usize::MAX,
        ensures
            final(self).folds(t.push(r.key())),
    {
        let ghost k = r.key();
        proof {
            lemma_first_seen(t);
            assert(t.push(k).drop_last() =~= t);
            assert forall|x: Key| #[trigger]
                occurrences(t.push(k), x) == occurrences(t, x) + if k == x {
                    1nat
                } else {
                    0nat
                } by {
                lemma_occurrences_push(t, k, x);
            }
        }
        let n = self.keys.len();
        let mut j: usize = 0;
        while j < n
            invariant
                n == self.keys@.len(),
                k == r.key(),
                t.len() < usize::MAX,
                self.folds(t),
                j <= n,
                forall|i: int| 0 <= i < j ==> self.keys_view()[i] != k,
            decreases n - j,
        {
            let same_kind = self.keys[j].kind == r.kind;
            let same_content = self.keys[j].content == r.content;
            if same_kind && same_content {
                let c = self.counts[j];
                proof {
                    assert(self.keys@[j as int].kind == r.kind);
                    assert(self.keys@[j as int].content@ == r.content@);
                    assert(self.keys_view()[j as int] == self.keys@[j as int].key());
                    assert(self.keys@[j as int].key() == r.key());
                    assert(self.keys_view()[j as int] == k);
                    lemma_occurrences_bound(t, k);
                    assert(first_seen(t).contains(k));
                }
                self.counts.set(j, c + 1);
                proof {
                    lemma_first_seen(t);
                    assert(t.push(k).drop_last() =~= t);
                    assert(first_seen(t).contains(k));
                    assert(first_seen(t.push(k)) == first_seen(t));
                    assert forall|x: Key| #[trigger]
                        occurrences(t.push(k), x) == occurrences(t, x) + if k == x {
                            1nat
                        } else {
                            0nat
                        } by {
                        lemma_occurrences_push(t, k, x);
                    }
                    assert forall|i: int| 0 <= i < self.counts@.len() implies self.counts@[i]
                        == occurrences(t.push(k), self.keys_view()[i]) by {
                        if i != j {
                            assert(self.keys_view()[i] != self.keys_view()[j as int]);
                        }
                    }
                }
                return;
            }
            j += 1;
        }
        proof {
            assert(!first_seen(t).contains(k)) by {
                if first_seen(t).contains(k) {
                    let i = choose|i: int| 0 <= i < n && first_seen(t)[i] == k;
                    assert(self.keys_view()[i] == k);
                }
            }
            lemma_occurrences_bound(t, k);
        }
        self.keys.push(r.duplicate());
        self.counts.push(1);
        proof {
            assert(self.keys_view() =~= first_seen(t).push(k));
        }
    }
}

/// Folds the records of `ring` that pass the kind gate, newest first.
fn fold_ring(folder: &mut Folder, ring: &Ring, f: &Filter, Ghost(t0): Ghost<Seq<Key>>)
    requires
        old(folder).folds(t0),
        ring.wf(),
        t0.len() + ring.view().len() <= usize::MAX,
    ensures
        final(folder).folds(t0 + newest_first(ring.view(), *f)),
{
    let len = ring.len();
    let ghost s = ring.view();
    let mut i = len;
    proof {
        assert(s.subrange(len as int, len as int) =~= Seq::<Key>::empty());
        assert(t0 + Seq::<Key>::empty() =~= t0);
    }
    while i > 0
        invariant
            len == s.len(),
            s == ring.view(),
            ring.wf(),
            i <= len,
            t0.len() + len <= usize::MAX,
            folder.folds(t0 + newest_first(s.subrange(i as int, len as int), *f)),
        decreases i,
    {
        let ghost done = newest_first(s.subrange(i as int, len as int), *f);
        i -= 1;
        let r = ring.get(i);
        proof {
            lemma_newest_first_len(s.subrange(i as int + 1, len as int), *f);
            assert(s.subrange(i as int, len as int).subrange(1, len - i) =~= s.subrange(
                i as int + 1,
                len as int,
            ));
        }
        if f.admits_kind_exec(r.kind) {
            folder.add(r, Ghost(t0 + done));
            proof {
                assert((t0 + done).push(r.key()) =~= t0 + done.push(r.key()));
            }
        }
    }
    proof {
        assert(s.subrange(0, len as int) =~= s);
    }
}

/// Derives the folded view of both rings under the filter: the game ring is
/// visited before the engine ring, each newest first; records of a closed
/// source or kind are skipped; records with equal kind and content fold into
/// one item with their count; the item whose key was first met last comes on
/// top.
pub fn derive_view(game: &Ring, engine: &Ring, filter: &Filter) -> (r: Vec<ViewItem>)
    requires
        game.wf(),
        engine.wf(),
        game.view().len() + engine.view().len() <= usize::MAX,
    ensures
        items_view(r@) == derived(game.view(), engine.view(), *filter),
{
    let mut folder = Folder { keys: Vec::new(), counts: Vec::new() };
    proof {
        assert(folder.keys_view() =~= Seq::<Key>::empty());
    }
    let ghost g: Seq<Key> = if filter.game {
        newest_first(game.view(), *filter)
    } else {
        Seq::empty()
    };
    let ghost e: Seq<Key> = if filter.engine {
        newest_first(engine.view(), *filter)
    } else {
        Seq::empty()
    };
    if filter.game {
        fold_ring(&mut folder, game, filter, Ghost(Seq::empty()));
        proof {
            assert(Seq::<Key>::empty() + g =~= g);
        }
    }
    proof {
        lemma_newest_first_len(game.view(), *filter);
    }
    if filter.engine {
        fold_ring(&mut folder, engine, filter, Ghost(g));
    } else {
        assert(g + e =~= g);
    }
    let ghost t = g + e;
    assert(t == traversal(game.view(), engine.view(), *filter));
    let n = folder.keys.len();
    let mut out: Vec<ViewItem> = Vec::new();
    let mut i = n;
    while i > 0
        invariant
            n == folder.keys@.len(),
            folder.folds(t),
            i <= n,
            out@.len() == n - i,
            forall|j: int| 0 <= j < out@.len() ==> #[trigger] out@[j]@ == fold(t)[j],
        decreases i,
    {
        i -= 1;
        let k = &folder.keys[i];
        let item = ViewItem { kind: k.kind, content: k.content.clone(), count: folder.counts[i] };
        out.push(item);
    }
    proof {
        assert(items_view(out@) =~= fold(t));
    }
    out
}

/// The sum of the counts of a view.
pub open spec fn total(v: Seq<(Key, nat)>) -> nat
    decreases v.len(),
{
    if v.len() == 0 {
        0
    } else {
        total(v.drop_last()) + v.last().1
    }
}

/// The occurrences in `t` of each of `keys`, summed.
spec fn sum_occurrences(keys: Seq<Key>, t: Seq<Key>) -> nat
    decreases keys.len(),
{
    if keys.len() == 0 {
        0
    } else {
        occurrences(t, keys[0]) + sum_occurrences(keys.subrange(1, keys.len() as int), t)
    }
}

spec fn counted_rev(keys: Seq<Key>, t: Seq<Key>) -> Seq<(Key, nat)> {
    Seq::new(
        keys.len(),
        |i: int| (keys[keys.len() - 1 - i], occurrences(t, keys[keys.len() - 1 - i])),
    )
}

proof fn lemma_total_counted_rev(keys: Seq<Key>, t: Seq<Key>)
    ensures
        total(counted_rev(keys, t)) == sum_occurrences(keys, t),
    decreases keys.len(),
{
    if keys.len() > 0 {
        let rest = keys.subrange(1, keys.len() as int);
        lemma_total_counted_rev(rest, t);
        assert(counted_rev(keys, t).drop_last() =~= counted_rev(rest, t));
    }
}

proof fn lemma_sum_push_key(keys: Seq<Key>, y: Key, t: Seq<Key>)
    ensures
        sum_occurrences(keys.push(y), t) == sum_occurrences(keys, t) + occurrences(t, y),
    decreases keys.len(),
{
    if keys.len() > 0 {
        let rest = keys.subrange(1, keys.len() as int);
        lemma_sum_push_key(rest, y, t);
        assert(keys.push(y).subrange(1, keys.len() as int + 1) =~= rest.push(y));
    } else {
        assert(keys.push(y).subrange(1, 1) =~= keys);
    }
}

proof fn lemma_sum_push_record(keys: Seq<Key>, t: Seq<Key>, k: Key)
    requires
        no_dup(keys),
    ensures
        sum_occurrences(keys, t.push(k)) == sum_occurrences(keys, t) + if keys.contains(k) {
            1nat
        } else {
            0nat
        },
    decreases keys.len(),
{
    if keys.len() > 0 {
        let rest = keys.subrange(1, keys.len() as int);
        assert(no_dup(rest)) by {
            assert forall|i: int, j: int| 0 <= i < j < rest.len() implies rest[i] != rest[j] by {
                assert(rest[i] == keys[i + 1] && rest[j] == keys[j + 1]);
            }
        }
        lemma_sum_push_record(rest, t, k);
        lemma_occurrences_push(t, k, keys[0]);
        if keys[0] == k {
            assert(!rest.contains(k)) by {
                if rest.contains(k) {
                    let j = choose|j: int| 0 <= j < rest.len() && rest[j] == k;
                    assert(keys[j + 1] == k);
                }
            }
            assert(keys.contains(k)) by {
                assert(keys[0] == k);
            }
        } else {
            assert(keys.contains(k) == rest.contains(k)) by {
                if keys.contains(k) {
                    let j = choose|j: int| 0 <= j < keys.len() && keys[j] == k;
                    assert(rest[j - 1] == k);
                }
                if rest.contains(k) {
                    let j = choose|j: int| 0 <= j < rest.len() && rest[j] == k;
                    assert(keys[j + 1] == k);
                }
            }
        }
    }
}

proof fn lemma_sum_first_seen(t: Seq<Key>)
    ensures
        sum_occurrences(first_seen(t), t) == t.len(),
    decreases t.len(),
{
    if t.len() > 0 {
        let t0 = t.drop_last();
        let k = t.last();
        lemma_sum_first_seen(t0);
        lemma_first_seen(t0);
        assert(t0.push(k) =~= t);
        lemma_sum_push_record(first_seen(t0), t0, k);
        if !first_seen(t0).contains(k) {
            lemma_sum_push_key(first_seen(t0), k, t);
            lemma_occurrences_bound(t0, k);
            lemma_occurrences_push(t0, k, k);
        }
    }
}

/// Every admissible record is counted once: the counts of the view add up
/// to the number of records that pass both gates.
pub proof fn lemma_fold_sound(game: Seq<Key>, engine: Seq<Key>, f: Filter)
    ensures
        total(derived(game, engine, f)) == traversal(game, engine, f).len(),
{
    let t = traversal(game, engine, f);
    lemma_total_counted_rev(first_seen(t), t);
    assert(fold(t) =~= counted_rev(first_seen(t), t));
    lemma_sum_first_seen(t);
}

proof fn lemma_newest_first_members(s: Seq<Key>, f: Filter)
    ensures
        forall|j: int|
            0 <= j < newest_first(s, f).len() ==> f.admits_kind(
                #[trigger] newest_first(s, f)[j].0,
            ) && s.contains(newest_first(s, f)[j]),
    decreases s.len(),
{
    if s.len() > 0 {
        let rest = s.subrange(1, s.len() as int);
        lemma_newest_first_members(rest, f);
        assert forall|j: int| 0 <= j < newest_first(s, f).len() implies f.admits_kind(
            #[trigger] newest_first(s, f)[j].0,
        ) && s.contains(newest_first(s, f)[j]) by {
            if j < newest_first(rest, f).len() {
                let x = newest_first(rest, f)[j];
                assert(f.admits_kind(newest_first(rest, f)[j].0));
                assert(rest.contains(x));
                assert(newest_first(s, f)[j] == x);
                let q = choose|q: int| 0 <= q < rest.len() && rest[q] == x;
                assert(s[q + 1] == x);
            } else {
                assert(newest_first(s, f)[j] == s[0]);
            }
        }
    }
}

/// Only admissible records are counted: each record the fold visits passes
/// the kind gate and comes from a ring whose source gate is open; every item
/// of the view has an admitted kind and counts exactly the visited records
/// with its key.
pub proof fn lemma_gates_respected(game: Seq<Key>, engine: Seq<Key>, f: Filter)
    ensures
        forall|j: int|
            0 <= j < traversal(game, engine, f).len() ==> {
                let k = #[trigger] traversal(game, engine, f)[j];
                &&& f.admits_kind(k.0)
                &&& (f.game && game.contains(k)) || (f.engine && engine.contains(k))
            },
        forall|i: int|
            0 <= i < derived(game, engine, f).len() ==> {
                let item = #[trigger] derived(game, engine, f)[i];
                &&& f.admits_kind(item.0.0)
                &&& item.1 == occurrences(traversal(game, engine, f), item.0)
                &&& item.1 >= 1
            },
{
    let t = traversal(game, engine, f);
    let g: Seq<Key> = if f.game {
        newest_first(game, f)
    } else {
        Seq::empty()
    };
    lemma_newest_first_members(game, f);
    lemma_newest_first_members(engine, f);
    assert forall|j: int| 0 <= j < t.len() implies {
        let k = #[trigger] t[j];
        &&& f.admits_kind(k.0)
        &&& (f.game && game.contains(k)) || (f.engine && engine.contains(k))
    } by {
        if j < g.len() {
            assert(t[j] == newest_first(game, f)[j]);
        } else {
            assert(t[j] == newest_first(engine, f)[j - g.len()]);
        }
    }
    lemma_first_seen(t);
    let fs = first_seen(t);
    assert forall|i: int| 0 <= i < derived(game, engine, f).len() implies {
        let item = #[trigger] derived(game, engine, f)[i];
        &&& f.admits_kind(item.0.0)
        &&& item.1 == occurrences(t, item.0)
        &&& item.1 >= 1
    } by {
        let k = fs[fs.len() - 1 - i];
        assert(fs[fs.len() - 1 - i] == k);
        assert(fs.contains(k));
        assert(t.contains(k));
        let j = choose|j: int| 0 <= j < t.len() && t[j] == k;
        lemma_occurrences_present(t, j);
    }
}

proof fn lemma_occurrences_present(t: Seq<Key>, j: int)
    requires
        0 <= j < t.len(),
    ensures
        occurrences(t, t[j]) >= 1,
    decreases t.len(),
{
    if j < t.len() - 1 {
        lemma_occurrences_present(t.drop_last(), j);
        assert(t.drop_last()[j] == t[j]);
    }
}

/// The derivation depends on the rings' contents and the filter alone: two
/// derivations from equal contents and filters give equal views.
pub proof fn lemma_derive_pure(
    game1: Seq<Key>,
    engine1: Seq<Key>,
    f1: Filter,
    game2: Seq<Key>,
    engine2: Seq<Key>,
    f2: Filter,
)
    requires
        game1 == game2,
        engine1 == engine2,
        f1 == f2,
    ensures
        derived(game1, engine1, f1) == derived(game2, engine2, f2),
{
}

/// `t[p]` is the first record of `t` with its key.
pub open spec fn first_occurrence(t: Seq<Key>, p: int) -> bool {
    0 <= p < t.len() && forall|q: int| 0 <= q < p ==> t[q] != t[p]
}

proof fn lemma_first_seen_order(t: Seq<Key>, p1: int, p2: int)
    requires
        p1 < p2,
        first_occurrence(t, p1),
        first_occurrence(t, p2),
    ensures
        exists|a1: int, a2: int|
            0 <= a1 < a2 < first_seen(t).len() && first_seen(t)[a1] == t[p1] && first_seen(
                t,
            )[a2] == t[p2],
    decreases t.len(),
{
    let t0 = t.drop_last();
    lemma_first_seen(t0);
    if p2 < t.len() - 1 {
        assert(t0[p1] == t[p1] && t0[p2] == t[p2]);
        assert(first_occurrence(t0, p2)) by {
            assert forall|q: int| 0 <= q < p2 implies t0[q] != t0[p2] by {
                assert(t0[q] == t[q]);
            }
        }
        assert(first_occurrence(t0, p1)) by {
            assert forall|q: int| 0 <= q < p1 implies t0[q] != t0[p1] by {
                assert(t0[q] == t[q]);
            }
        }
        lemma_first_seen_order(t0, p1, p2);
        let (a1, a2) = choose|a1: int, a2: int|
            0 <= a1 < a2 < first_seen(t0).len() && first_seen(t0)[a1] == t[p1] && first_seen(
                t0,
            )[a2] == t[p2];
        assert(first_seen(t)[a1] == t[p1] && first_seen(t)[a2] == t[p2]);
    } else {
        assert(!t0.contains(t[p2])) by {
            if t0.contains(t[p2]) {
                let q = choose|q: int| 0 <= q < t0.len() && t0[q] == t[p2];
                assert(t[q] == t[p2]);
            }
        }
        assert(t0[p1] == t[p1]);
        assert(t0.contains(t[p1]));
        assert(first_seen(t0).contains(t[p1]));
        let a1 = choose|a1: int| 0 <= a1 < first_seen(t0).len() && first_seen(t0)[a1] == t[p1];
        let a2 = first_seen(t0).len() as int;
        assert(first_seen(t)[a1] == t[p1] && first_seen(t)[a2] == t[p2]);
    }
}

/// Order of the view: of two keys first met in the fold's visiting order at
/// positions `p1 < p2`, the item of the one met later stands above. Each
/// ring is visited newest first, so a key's place follows its newest
/// admissible record: a ring holding `a, b, a` shows `b` above `a`.
pub proof fn lemma_order(game: Seq<Key>, engine: Seq<Key>, f: Filter, p1: int, p2: int)
    requires
        p1 < p2,
        first_occurrence(traversal(game, engine, f), p1),
        first_occurrence(traversal(game, engine, f), p2),
    ensures
        exists|i1: int, i2: int|
            0 <= i2 < i1 < derived(game, engine, f).len() && derived(game, engine, f)[i1].0
                == traversal(game, engine, f)[p1] && derived(game, engine, f)[i2].0 == traversal(
                game,
                engine,
                f,
            )[p2],
{
    let t = traversal(game, engine, f);
    let fs = first_seen(t);
    lemma_first_seen_order(t, p1, p2);
    let (a1, a2) = choose|a1: int, a2: int|
        0 <= a1 < a2 < fs.len() && fs[a1] == t[p1] && fs[a2] == t[p2];
    let i1 = fs.len() - 1 - a1;
    let i2 = fs.len() - 1 - a2;
    assert(derived(game, engine, f)[i1].0 == t[p1]);
    assert(derived(game, engine, f)[i2].0 == t[p2]);
}

proof fn lemma_newest_first_places(s: Seq<Key>, f: Filter, a1: int, a2: int)
    requires
        0 <= a1 < a2 < s.len(),
        f.admits_kind(s[a1].0),
        f.admits_kind(s[a2].0),
    ensures
        exists|q1: int, q2: int|
            0 <= q2 < q1 < newest_first(s, f).len() && newest_first(s, f)[q1] == s[a1]
                && newest_first(s, f)[q2] == s[a2],
    decreases s.len(),
{
    let rest = s.subrange(1, s.len() as int);
    if a1 == 0 {
        lemma_newest_first_admitted(rest, f, a2 - 1);
        let q2 = choose|q: int| 0 <= q < newest_first(rest, f).len() && newest_first(rest, f)[q]
            == rest[a2 - 1];
        let q1 = newest_first(rest, f).len() as int;
        assert(newest_first(s, f)[q1] == s[a1] && newest_first(s, f)[q2] == s[a2]);
    } else {
        lemma_newest_first_places(rest, f, a1 - 1, a2 - 1);
        let (q1, q2) = choose|q1: int, q2: int|
            0 <= q2 < q1 < newest_first(rest, f).len() && newest_first(rest, f)[q1] == rest[a1
                - 1] && newest_first(rest, f)[q2] == rest[a2 - 1];
        assert(newest_first(s, f)[q1] == s[a1] && newest_first(s, f)[q2] == s[a2]);
    }
}

proof fn lemma_newest_first_admitted(s: Seq<Key>, f: Filter, a: int)
    requires
        0 <= a < s.len(),
        f.admits_kind(s[a].0),
    ensures
        exists|q: int| 0 <= q < newest_first(s, f).len() && newest_first(s, f)[q] == s[a],
    decreases s.len(),
{
    let rest = s.subrange(1, s.len() as int);
    if a == 0 {
        let q = newest_first(rest, f).len() as int;
        assert(newest_first(s, f)[q] == s[a]);
    } else {
        lemma_newest_first_admitted(rest, f, a - 1);
        let q = choose|q: int| 0 <= q < newest_first(rest, f).len() && newest_first(rest, f)[q]
            == rest[a - 1];
        assert(newest_first(s, f)[q] == s[a]);
    }
}

proof fn lemma_repeat_counts_twice(t: Seq<Key>, i: int, j: int)
    requires
        0 <= i < j < t.len(),
        t[i] == t[j],
    ensures
        occurrences(t, t[j]) >= 2,
    decreases t.len(),
{
    let t0 = t.drop_last();
    if j == t.len() - 1 {
        lemma_occurrences_present(t0, i);
        assert(t0[i] == t[j]);
    } else {
        lemma_repeat_counts_twice(t0, i, j);
        assert(t0[j] == t[j]);
    }
}

/// Order of the view within one ring: of two admissible records of the same
/// ring whose keys each occur once among all admissible records, the one
/// that arrived first has its item higher in the view.
pub proof fn lemma_order_in_ring(
    game: Seq<Key>,
    engine: Seq<Key>,
    f: Filter,
    from_game: bool,
    a1: int,
    a2: int,
)
    requires
        if from_game {
            f.game
        } else {
            f.engine
        },
        0 <= a1 < a2 < (if from_game {
            game
        } else {
            engine
        }).len(),
        f.admits_kind((if from_game {
            game
        } else {
            engine
        })[a1].0),
        f.admits_kind((if from_game {
            game
        } else {
            engine
        })[a2].0),
        occurrences(traversal(game, engine, f), (if from_game {
            game
        } else {
            engine
        })[a1]) == 1,
        occurrences(traversal(game, engine, f), (if from_game {
            game
        } else {
            engine
        })[a2]) == 1,
    ensures
        exists|i1: int, i2: int|
            0 <= i1 < i2 < derived(game, engine, f).len() && derived(game, engine, f)[i1].0 == (
            if from_game {
                game
            } else {
                engine
            })[a1] && derived(game, engine, f)[i2].0 == (if from_game {
                game
            } else {
                engine
            })[a2],
{
    let s = if from_game {
        game
    } else {
        engine
    };
    let t = traversal(game, engine, f);
    let g: Seq<Key> = if f.game {
        newest_first(game, f)
    } else {
        Seq::empty()
    };
    let off: int = if from_game {
        0
    } else {
        g.len() as int
    };
    lemma_newest_first_places(s, f, a1, a2);
    let (q1, q2) = choose|q1: int, q2: int|
        0 <= q2 < q1 < newest_first(s, f).len() && newest_first(s, f)[q1] == s[a1]
            && newest_first(s, f)[q2] == s[a2];
    assert(t[off + q1] == s[a1]);
    assert(t[off + q2] == s[a2]);
    assert(first_occurrence(t, off + q1)) by {
        assert forall|q: int| 0 <= q < off + q1 implies #[trigger] t[q] != t[off + q1] by {
            if t[q] == t[off + q1] {
                lemma_repeat_counts_twice(t, q, off + q1);
            }
        }
    }
    assert(first_occurrence(t, off + q2)) by {
        assert forall|q: int| 0 <= q < off + q2 implies #[trigger] t[q] != t[off + q2] by {
            if t[q] == t[off + q2] {
                lemma_repeat_counts_twice(t, q, off + q2);
            }
        }
    }
    lemma_order(game, engine, f, off + q2, off + q1);
}

} // verus!
