# imagenet_wds

Indexing and loading of the ImageNet-1k WebDataset shards on Hugging Face for training a
small convolutional network with burn.

- `src/` is the verified library (Verus):
  - `naming`: shard URLs, tar entry paths, file names and the class keys they carry;
  - `lexical`: the order in which class keys are sorted;
  - `labels`: labels as ranks among the sorted distinct class keys, and their laws;
  - `indexer`: the indexing loop's decisions, entry by entry, and the final labelled index;
  - `dataset`: the index itself (`PlainTarDataset`, `RemoteTarEntry`), lookup and split;
  - `pixels`: decoding an image (through the `image` crate) into planar RGB bytes;
  - `batch`: laying a batch's images end to end and converting its labels;
  - `scan`: the decision at each tar entry while looking for one image in a shard.
- `app/` is the program around it: HTTP and tar streaming, the JSON cache, floating-point
  normalisation, the burn dataset, batcher, model and training loop; `app/bin/extract.rs`
  is a separate program that unpacks local shards.
