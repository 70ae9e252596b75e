//! The shard index: one entry per image, naming the shard that holds it and its label.

use vstd::prelude::*;

verus! {

/// An image inside a remote tar shard, with its class label.
#[derive(Debug)]
pub struct RemoteTarEntry {
    pub shard_url: String,
    pub filename: String,
    pub label: usize,
}

impl Clone for RemoteTarEntry {
    fn clone(&self) -> (r: Self)
        ensures
            r == *self,
    {
        RemoteTarEntry {
            shard_url: self.shard_url.clone(),
            filename: self.filename.clone(),
            label: self.label,
        }
    }
}

/// Some entry carries label `label`.
pub open spec fn has_label(items: Seq<RemoteTarEntry>, label: int) -> bool {
    exists|i: int| 0 <= i < items.len() && items[i].label == label
}

/// An index of images stored in remote tar shards.
pub struct PlainTarDataset {
    pub items: Vec<RemoteTarEntry>,
}

impl Clone for PlainTarDataset {
    fn clone(&self) -> (r: Self)
        ensures
            r.items@ == self.items@,
    {
        PlainTarDataset { items: copy_entries(&self.items, 0, self.items.len()) }
    }
}

/// The entries of `items` from `start` up to `end`, in order.
fn copy_entries(items: &Vec<RemoteTarEntry>, start: usize, end: usize) -> (r: Vec<RemoteTarEntry>)
    requires
        start <= end <= items.len(),
    ensures
        r@ == items@.subrange(start as int, end as int),
{
    let mut r: Vec<RemoteTarEntry> = Vec::new();
    let mut i: usize = start;
    while i < end
        invariant
            start <= i <= end <= items.len(),
            r@ == items@.subrange(start as int, i as int),
        decreases end - i,
    {
        r.push(items[i].clone());
        proof {
            assert(r@ =~= items@.subrange(start as int, i + 1));
        }
        i = i + 1;
    }
    r
}

impl PlainTarDataset {
    /// The number of images in the index.
    pub fn len(&self) -> (n: usize)
        ensures
            n == self.items@.len(),
    {
        self.items.len()
    }

    /// The entry at `index`, or none past the end.
    pub fn entry(&self, index: usize) -> (r: Option<&RemoteTarEntry>)
        ensures
            index < self.items@.len() ==> r == Some(&self.items@[index as int]),
            index >= self.items@.len() ==> r is None,
    {
        if index < self.items.len() {
            Some(&self.items[index])
        } else {
            None
        }
    }

    /// Splits the index at `split_index`: the first part holds the entries before it, the
    /// second the entries from it on, both in their order here.
    pub fn split(&self, split_index: usize) -> (parts: (Self, Self))
        requires
            split_index <= self.items@.len(),
        ensures
            parts.0.items@ == self.items@.take(split_index as int),
            parts.1.items@ == self.items@.skip(split_index as int),
            parts.0.items@ + parts.1.items@ == self.items@,
    {
        let train_items = copy_entries(&self.items, 0, split_index);
        let valid_items = copy_entries(&self.items, split_index, self.items.len());
        proof {
            assert(self.items@.take(split_index as int) + self.items@.skip(split_index as int)
                =~= self.items@);
        }
        (PlainTarDataset { items: train_items }, PlainTarDataset { items: valid_items })
    }
}

} // verus!
