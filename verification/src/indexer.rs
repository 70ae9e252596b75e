//! Building the shard index entry by entry: the decisions of the indexing loop, whose
//! network and tar reading stay with the caller.

use vstd::prelude::*;

use crate::dataset::{has_label, PlainTarDataset, RemoteTarEntry};
use crate::labels::{
    label_of, lemma_label_is_position, lemma_sorted_count, strictly_sorted,
};
use crate::lexical::{
    compare_keys, lemma_lex_irreflexive, lemma_lex_transitive, lex_lt, KeyOrder,
};
use crate::naming::{class_key_of_path, entry_class_key};

verus! {

/// What is kept of an image entry: its shard's URL, its path in the shard and its class key.
pub type Observation = (Seq<char>, Seq<char>, Seq<char>);

/// The distinct class keys among the kept entries.
pub open spec fn class_set(obs: Seq<Observation>) -> Set<Seq<char>> {
    obs.map_values(|o: Observation| o.2).to_set()
}

/// Every kept entry's class key is the one its path carries.
pub open spec fn keys_match_paths(obs: Seq<Observation>) -> bool {
    forall|i: int| 0 <= i < obs.len() ==> class_key_of_path((#[trigger] obs[i]).1) == Some(obs[i].2)
}

/// The views of a list of class keys.
pub open spec fn key_views(keys: Seq<Vec<char>>) -> Seq<Seq<char>> {
    keys.map_values(|k: Vec<char>| k@)
}

struct PendingImage {
    shard_url: String,
    filename: String,
    class_key: Vec<char>,
}

/// The state of indexing a set of shards: the image entries kept so far, in the order they
/// were seen, and the distinct class keys among them, kept sorted.
pub struct ShardIndexer {
    pending: Vec<PendingImage>,
    classes: Vec<Vec<char>>,
}

impl View for ShardIndexer {
    type V = Seq<Observation>;

    closed spec fn view(&self) -> Seq<Observation> {
        self.pending@.map_values(
            |p: PendingImage| (p.shard_url@, p.filename@, p.class_key@),
        )
    }
}

/// Finds `key` in a strictly sorted list of keys, or the position where it would stand.
fn find_class(classes: &Vec<Vec<char>>, key: &Vec<char>) -> (r: Result<usize, usize>)
    requires
        strictly_sorted(key_views(classes@)),
    ensures
        match r {
            Ok(p) => p < classes@.len() && key_views(classes@)[p as int] == key@,
            Err(p) => p <= classes@.len() && (forall|i: int|
                0 <= i < p ==> lex_lt(#[trigger] key_views(classes@)[i], key@)) && (forall|i: int|
                p <= i < classes@.len() ==> lex_lt(key@, #[trigger] key_views(classes@)[i])),
        },
{
    let ghost ks = key_views(classes@);
    let mut lo: usize = 0;
    let mut hi: usize = classes.len();
    while lo < hi
        invariant
            ks == key_views(classes@),
            strictly_sorted(ks),
            lo <= hi <= classes@.len(),
            forall|i: int| 0 <= i < lo ==> lex_lt(#[trigger] ks[i], key@),
            forall|i: int| hi <= i < classes@.len() ==> lex_lt(key@, #[trigger] ks[i]),
        decreases hi - lo,
    {
        let mid: usize = lo + (hi - lo) / 2;
        assert(ks[mid as int] == classes@[mid as int]@);
        match compare_keys(&classes[mid], key) {
            KeyOrder::Equal => {
                return Ok(mid);
            },
            KeyOrder::Less => {
                assert forall|i: int| 0 <= i < mid + 1 implies lex_lt(#[trigger] ks[i], key@) by {
                    if i < mid {
                        lemma_lex_transitive(ks[i], ks[mid as int], key@);
                    }
                }
                lo = mid + 1;
            },
            KeyOrder::Greater => {
                assert forall|i: int| mid <= i < classes@.len() implies lex_lt(
                    key@,
                    #[trigger] ks[i],
                ) by {
                    if i > mid {
                        lemma_lex_transitive(key@, ks[mid as int], ks[i]);
                    }
                }
                hi = mid;
            },
        }
    }
    Err(lo)
}

/// Labels do not depend on the order in which entries were seen: the same entries kept in
/// any order give every class key the same label.
pub proof fn lemma_labels_independent_of_order(
    a: Seq<Observation>,
    b: Seq<Observation>,
    key: Seq<char>,
)
    requires
        a.to_multiset() == b.to_multiset(),
    ensures
        class_set(a) == class_set(b),
        label_of(class_set(a), key) == label_of(class_set(b), key),
{
    broadcast use vstd::seq_lib::group_to_multiset_ensures;

    assert forall|x: Seq<char>| class_set(a).contains(x) implies class_set(b).contains(x) by {
        let ka = a.map_values(|o: Observation| o.2);
        assert(ka.contains(x));
        let i = choose|i: int| 0 <= i < ka.len() && ka[i] == x;
        assert(a.contains(a[i]));
        assert(a.to_multiset().count(a[i]) > 0);
        assert(b.to_multiset().count(a[i]) > 0);
        assert(b.contains(a[i]));
        let j = choose|j: int| 0 <= j < b.len() && b[j] == a[i];
        assert(b.map_values(|o: Observation| o.2)[j] == x);
    }
    assert forall|x: Seq<char>| class_set(b).contains(x) implies class_set(a).contains(x) by {
        let kb = b.map_values(|o: Observation| o.2);
        assert(kb.contains(x));
        let i = choose|i: int| 0 <= i < kb.len() && kb[i] == x;
        assert(b.contains(b[i]));
        assert(b.to_multiset().count(b[i]) > 0);
        assert(a.to_multiset().count(b[i]) > 0);
        assert(a.contains(b[i]));
        let j = choose|j: int| 0 <= j < a.len() && a[j] == b[i];
        assert(a.map_values(|o: Observation| o.2)[j] == x);
    }
    assert(class_set(a) =~= class_set(b));
}

impl ShardIndexer {
    #[verifier::type_invariant]
    closed spec fn well_formed(self) -> bool {
        &&& strictly_sorted(key_views(self.classes@))
        &&& key_views(self.classes@).to_set() == class_set(self@)
        &&& keys_match_paths(self@)
    }

    /// An indexer that has kept nothing yet.
    pub fn new() -> (indexer: Self)
        ensures
            indexer@ == Seq::<Observation>::empty(),
    {
        let pending: Vec<PendingImage> = Vec::new();
        let classes: Vec<Vec<char>> = Vec::new();
        let ghost seen = pending@.map_values(
            |p: PendingImage| (p.shard_url@, p.filename@, p.class_key@),
        );
        proof {
            assert(seen =~= Seq::<Observation>::empty());
            assert(key_views(classes@).to_set() =~= Set::<Seq<char>>::empty());
            assert(class_set(seen) =~= Set::<Seq<char>>::empty());
            assert(keys_match_paths(seen));
        }
        ShardIndexer { pending, classes }
    }

    /// The number of distinct classes among the entries kept so far.
    pub fn class_count(&self) -> (n: usize)
        ensures
            n == class_set(self@).len(),
    {
        proof {
            use_type_invariant(self);
            lemma_sorted_count(key_views(self.classes@));
        }
        self.classes.len()
    }

    /// Looks at one entry of the shard at `shard_url`: it is kept, after those kept before,
    /// exactly when its path carries a class key (an image whose file name starts with a
    /// WordNet-style key). Tells whether it was kept.
    pub fn observe(&mut self, shard_url: &str, filename: &str) -> (kept: bool)
        ensures
            kept == class_key_of_path(filename@) is Some,
            kept ==> final(self)@ == old(self)@.push(
                (shard_url@, filename@, class_key_of_path(filename@)->0),
            ),
            !kept ==> final(self)@ == old(self)@,
    {
        let key = match entry_class_key(filename) {
            None => {
                return false;
            },
            Some(k) => k,
        };
        let mut state = ShardIndexer::new();
        std::mem::swap(&mut state, self);
        proof {
            use_type_invariant(&state);
        }
        let ghost before = state@;
        let ShardIndexer { mut pending, mut classes } = state;
        let ghost old_keys = key_views(classes@);
        match find_class(&classes, &key) {
            Ok(_) => {},
            Err(pos) => {
                let copy = key.clone();
                assert(copy@ =~= key@);
                classes.insert(pos, copy);
                proof {
                    let ks = key_views(classes@);
                    assert(ks =~= old_keys.insert(pos as int, key@));
                    assert forall|i: int, j: int| 0 <= i < j < ks.len() implies lex_lt(
                        #[trigger] ks[i],
                        #[trigger] ks[j],
                    ) by {
                        if j < pos {
                            assert(lex_lt(old_keys[i], old_keys[j]));
                        } else if j == pos {
                            assert(lex_lt(old_keys[i], key@));
                        } else if i < pos {
                            assert(lex_lt(old_keys[i], old_keys[j - 1]));
                        } else if i == pos {
                            assert(lex_lt(key@, old_keys[j - 1]));
                        } else {
                            assert(lex_lt(old_keys[i - 1], old_keys[j - 1]));
                        }
                    }
                }
            },
        }
        let ghost new_keys = key_views(classes@);
        proof {
            assert(new_keys.to_set() =~= old_keys.to_set().insert(key@)) by {
                assert forall|x: Seq<char>| new_keys.to_set().contains(x) implies old_keys.to_set().insert(
                    key@,
                ).contains(x) by {
                    assert(new_keys.contains(x));
                    let i = choose|i: int| 0 <= i < new_keys.len() && new_keys[i] == x;
                    if x != key@ {
                        if old_keys.len() == new_keys.len() {
                            assert(old_keys[i] == x);
                        } else {
                            let pos = choose|p: int|
                                0 <= p <= old_keys.len() && new_keys == old_keys.insert(p, key@);
                            if i < pos {
                                assert(old_keys[i] == x);
                            } else {
                                assert(old_keys[i - 1] == x);
                            }
                        }
                        assert(old_keys.contains(x));
                    }
                }
                assert forall|x: Seq<char>| old_keys.to_set().insert(key@).contains(x) implies new_keys.to_set().contains(
                    x,
                ) by {
                    if x == key@ {
                        if old_keys.len() == new_keys.len() {
                            let p = choose|p: int| 0 <= p < new_keys.len() && new_keys[p] == key@;
                            assert(new_keys.contains(x));
                        } else {
                            let pos = choose|p: int|
                                0 <= p <= old_keys.len() && new_keys == old_keys.insert(p, key@);
                            assert(new_keys[pos] == x);
                            assert(new_keys.contains(x));
                        }
                    } else {
                        assert(old_keys.contains(x));
                        let i = choose|i: int| 0 <= i < old_keys.len() && old_keys[i] == x;
                        if old_keys.len() == new_keys.len() {
                            assert(new_keys[i] == x);
                        } else {
                            let pos = choose|p: int|
                                0 <= p <= old_keys.len() && new_keys == old_keys.insert(p, key@);
                            if i < pos {
                                assert(new_keys[i] == x);
                            } else {
                                assert(new_keys[i + 1] == x);
                            }
                        }
                        assert(new_keys.contains(x));
                    }
                }
            }
        }
        pending.push(
            PendingImage {
                shard_url: shard_url.to_owned(),
                filename: filename.to_owned(),
                class_key: key,
            },
        );
        let ghost after = pending@.map_values(
            |p: PendingImage| (p.shard_url@, p.filename@, p.class_key@),
        );
        proof {
            assert(after =~= before.push((shard_url@, filename@, class_key_of_path(filename@)->0)));
            assert(after.map_values(|o: Observation| o.2) =~= before.map_values(
                |o: Observation| o.2,
            ).push(key@));
            assert(class_set(after) =~= class_set(before).insert(key@)) by {
                broadcast use vstd::seq_lib::group_seq_properties;
            }
            assert forall|k: int| 0 <= k < after.len() implies class_key_of_path(
                (#[trigger] after[k]).1,
            ) == Some(after[k].2) by {
                if k < before.len() {
                    assert(after[k] == before[k]);
                }
            }
        }
        *self = ShardIndexer { pending, classes };
        true
    }

    /// The index of the kept entries, in the order they were kept: each names its shard
    /// and path, and is labelled with the position of its class key among the distinct
    /// keys sorted, so that the labels run over 0 to the number of classes less one.
    pub fn finish(self) -> (dataset: PlainTarDataset)
        ensures
            dataset.items@.len() == self@.len(),
            forall|i: int|
                0 <= i < self@.len() ==> {
                    &&& (#[trigger] dataset.items@[i]).shard_url@ == self@[i].0
                    &&& dataset.items@[i].filename@ == self@[i].1
                    &&& dataset.items@[i].label == label_of(class_set(self@), self@[i].2)
                    &&& dataset.items@[i].label < class_set(self@).len()
                    &&& class_key_of_path(dataset.items@[i].filename@) == Some(self@[i].2)
                },
            forall|j: int|
                0 <= j < class_set(self@).len() ==> #[trigger] has_label(dataset.items@, j),
    {
        proof {
            use_type_invariant(&self);
        }
        let ghost seen = self@;
        let ghost ks = key_views(self.classes@);
        let ghost classes = class_set(seen);
        proof {
            lemma_sorted_count(ks);
        }
        let mut items: Vec<RemoteTarEntry> = Vec::new();
        let mut i: usize = 0;
        while i < self.pending.len()
            invariant
                seen == self@,
                ks == key_views(self.classes@),
                classes == class_set(seen),
                strictly_sorted(ks),
                ks.to_set() == classes,
                ks.len() == classes.len(),
                keys_match_paths(seen),
                i <= self.pending@.len(),
                items@.len() == i,
                forall|k: int|
                    0 <= k < i ==> {
                        &&& (#[trigger] items@[k]).shard_url@ == seen[k].0
                        &&& items@[k].filename@ == seen[k].1
                        &&& items@[k].label == label_of(classes, seen[k].2)
                        &&& items@[k].label < classes.len()
                        &&& class_key_of_path(items@[k].filename@) == Some(seen[k].2)
                    },
            decreases self.pending@.len() - i,
        {
            let entry = &self.pending[i];
            assert(seen[i as int] == (entry.shard_url@, entry.filename@, entry.class_key@));
            let label: usize = match find_class(&self.classes, &entry.class_key) {
                Ok(p) => {
                    proof {
                        lemma_label_is_position(ks, p as int);
                        lemma_sorted_count(ks);
                    }
                    p
                },
                Err(p) => {
                    proof {
                        let key = entry.class_key@;
                        assert(seen.map_values(|o: Observation| o.2)[i as int] == key);
                        assert(classes.contains(key));
                        assert(ks.contains(key));
                        let q = choose|q: int| 0 <= q < ks.len() && ks[q] == key;
                        lemma_lex_irreflexive(key);
                        if q < p {
                            assert(lex_lt(ks[q], key));
                        } else {
                            assert(lex_lt(key, ks[q]));
                        }
                    }
                    0
                },
            };
            items.push(
                RemoteTarEntry {
                    shard_url: entry.shard_url.clone(),
                    filename: entry.filename.clone(),
                    label,
                },
            );
            i = i + 1;
        }
        proof {
            lemma_sorted_count(ks);
            assert forall|j: int| 0 <= j < classes.len() implies #[trigger] has_label(items@, j) by {
                let key = ks[j];
                assert(ks.contains(key));
                let keys = seen.map_values(|o: Observation| o.2);
                assert(keys.to_set().contains(key));
                assert(keys.contains(key));
                let k = choose|k: int| 0 <= k < keys.len() && keys[k] == key;
                lemma_label_is_position(ks, j);
                assert(items@[k].label == j);
            }
        }
        PlainTarDataset { items }
    }
}

} // verus!
