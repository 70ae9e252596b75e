//! Class labels: a class's label is the number of distinct class keys that sort before it,
//! that is, its position in the sorted list of classes.

use vstd::prelude::*;
use vstd::set_lib::lemma_len_subset;

use crate::lexical::{lemma_lex_asymmetric, lemma_lex_irreflexive, lemma_lex_total, lex_lt};

verus! {

/// Every key sorts strictly before every later one.
pub open spec fn strictly_sorted(s: Seq<Seq<char>>) -> bool {
    forall|i: int, j: int| 0 <= i < j < s.len() ==> lex_lt(#[trigger] s[i], #[trigger] s[j])
}

/// The classes that sort before `key`.
pub open spec fn classes_before(classes: Set<Seq<char>>, key: Seq<char>) -> Set<Seq<char>> {
    classes.filter(|c: Seq<char>| lex_lt(c, key))
}

/// The label of class `key` among `classes`: how many of them sort before it.
pub open spec fn label_of(classes: Set<Seq<char>>, key: Seq<char>) -> nat {
    classes_before(classes, key).len()
}

/// In a strictly sorted list of keys, the label of each key is its position.
pub proof fn lemma_label_is_position(s: Seq<Seq<char>>, p: int)
    requires
        strictly_sorted(s),
        0 <= p < s.len(),
    ensures
        label_of(s.to_set(), s[p]) == p,
{
    let before = classes_before(s.to_set(), s[p]);
    let prefix = s.take(p);
    assert forall|x: Seq<char>| before.contains(x) implies prefix.to_set().contains(x) by {
        assert(s.contains(x));
        let i = choose|i: int| 0 <= i < s.len() && s[i] == x;
        if i == p {
            lemma_lex_irreflexive(x);
        } else if i > p {
            lemma_lex_asymmetric(s[p], s[i]);
        }
        assert(prefix[i] == x);
    }
    assert forall|x: Seq<char>| prefix.to_set().contains(x) implies before.contains(x) by {
        assert(prefix.contains(x));
        let i = choose|i: int| 0 <= i < prefix.len() && prefix[i] == x;
        assert(s[i] == x);
        assert(s.contains(x));
    }
    assert(before =~= prefix.to_set());
    assert forall|i: int, j: int| 0 <= i < prefix.len() && 0 <= j < prefix.len() && i != j
        implies prefix[i] != prefix[j] by {
        if i < j {
            assert(lex_lt(s[i], s[j]));
            lemma_lex_irreflexive(s[i]);
        } else {
            assert(lex_lt(s[j], s[i]));
            lemma_lex_irreflexive(s[j]);
        }
    }
    assert(prefix.no_duplicates());
    prefix.unique_seq_to_set();
}

/// A strictly sorted list of keys has as many keys as its set of keys.
pub proof fn lemma_sorted_count(s: Seq<Seq<char>>)
    requires
        strictly_sorted(s),
    ensures
        s.to_set().len() == s.len(),
{
    assert forall|i: int, j: int| 0 <= i < s.len() && 0 <= j < s.len() && i != j
        implies s[i] != s[j] by {
        if i < j {
            lemma_lex_irreflexive(s[i]);
        } else {
            lemma_lex_irreflexive(s[j]);
        }
    }
    assert(s.no_duplicates());
    s.unique_seq_to_set();
}

/// Every label is below the number of classes.
pub proof fn lemma_label_below_class_count(classes: Set<Seq<char>>, key: Seq<char>)
    requires
        classes.finite(),
        classes.contains(key),
    ensures
        label_of(classes, key) < classes.len(),
{
    lemma_lex_irreflexive(key);
    let before = classes_before(classes, key);
    assert(before.subset_of(classes.remove(key)));
    lemma_len_subset(before, classes.remove(key));
}

/// A class that sorts before another has the smaller label.
pub proof fn lemma_label_follows_key_order(classes: Set<Seq<char>>, a: Seq<char>, b: Seq<char>)
    requires
        classes.finite(),
        classes.contains(a),
        lex_lt(a, b),
    ensures
        label_of(classes, a) < label_of(classes, b),
{
    lemma_lex_irreflexive(a);
    let before_a = classes_before(classes, a);
    let before_b = classes_before(classes, b);
    assert forall|c: Seq<char>| before_a.contains(c) implies before_b.remove(a).contains(c) by {
        crate::lexical::lemma_lex_transitive(c, a, b);
    }
    assert(before_a.subset_of(before_b.remove(a)));
    assert(before_b.subset_of(classes));
    lemma_len_subset(before_b, classes);
    lemma_len_subset(before_a, before_b.remove(a));
}

/// Two classes have the same label exactly when they are the same class.
pub proof fn lemma_labels_identify_classes(classes: Set<Seq<char>>, a: Seq<char>, b: Seq<char>)
    requires
        classes.finite(),
        classes.contains(a),
        classes.contains(b),
    ensures
        label_of(classes, a) == label_of(classes, b) <==> a == b,
{
    if a != b {
        lemma_lex_total(a, b);
        if lex_lt(a, b) {
            lemma_label_follows_key_order(classes, a, b);
        } else {
            lemma_label_follows_key_order(classes, b, a);
        }
    }
}

} // verus!
