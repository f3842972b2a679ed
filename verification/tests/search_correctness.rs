use std::collections::HashMap;
use std::path::PathBuf;

use babyvector::embed::check_embedder;
use babyvector::store::{ids_as_bytes, PublishedSnapshot, SnapshotLoad};
use babyvector::{Engine, Error, HashEmbedder, Hit, Index, IndexConfig, Meta};

fn id(byte: u8) -> [u8; 16] {
    [byte; 16]
}

struct Written {
    meta: Meta,
    ids_bytes: Vec<u8>,
    vectors: Vec<u8>,
}

/// In-memory stand-in for the index directories under an engine root.
struct Disk {
    engine: Engine,
    dirs: HashMap<String, Written>,
}

impl Disk {
    fn new() -> Self {
        Disk { engine: Engine::with_root(PathBuf::from("root")), dirs: HashMap::new() }
    }

    fn load(w: &Written) -> Option<PublishedSnapshot> {
        match PublishedSnapshot::from_meta(w.meta.duplicate()).unwrap() {
            SnapshotLoad::Ready(s) => Some(s),
            SnapshotLoad::NeedsFiles(m) => {
                Some(PublishedSnapshot::from_files(m, &w.ids_bytes, w.vectors.clone()).unwrap())
            }
        }
    }

    fn create(&mut self, name: &str, cfg: IndexConfig) -> Result<Index, Error> {
        let dir = self.engine.index_dir(name)?;
        let meta = Index::initial_meta(cfg);
        let w = Written { meta: meta.duplicate(), ids_bytes: Vec::new(), vectors: Vec::new() };
        let snap = Self::load(&w);
        self.dirs.insert(name.to_string(), w);
        Ok(Index::created(dir, meta, snap))
    }

    fn open(&self, name: &str) -> Result<Index, Error> {
        let dir = self.engine.index_dir(name)?;
        match self.dirs.get(name) {
            None => Err(Error::IndexNotFound(name.to_string())),
            Some(w) => Index::opened(dir, Self::load(w)),
        }
    }

    fn publish(&mut self, name: &str, index: &mut Index) -> Result<(), Error> {
        let batch = index.prepare_publish()?;
        let w = Written {
            meta: batch.meta.duplicate(),
            ids_bytes: ids_as_bytes(&batch.ids),
            vectors: batch.vectors.clone(),
        };
        let snap = Self::load(&w);
        self.dirs.insert(name.to_string(), w);
        index.record_published_meta(batch.meta);
        index.install_snapshot(snap);
        Ok(())
    }
}

fn embed(e: &HashEmbedder, text: &str) -> Vec<f32> {
    let counts = e.bucket_counts(text.as_bytes());
    let mut v: Vec<f32> = counts.iter().map(|c| *c as f32).collect();
    let norm = v.iter().map(|x| x * x).sum::<f32>().sqrt();
    if norm > 1e-8 {
        for x in &mut v {
            *x /= norm;
        }
    }
    v
}

fn signs(v: &[f32]) -> Vec<bool> {
    v.iter().map(|x| *x >= 0.0).collect()
}

fn add_texts(index: &mut Index, e: &HashEmbedder, ids: &[[u8; 16]], texts: &[&str]) -> Result<(), Error> {
    index.prepare_add_texts(ids.len(), texts.len(), e.dim(), e.id())?;
    let flat: Vec<f32> = texts.iter().flat_map(|t| embed(e, t)).collect();
    index.add_vectors(ids, &signs(&flat))
}

fn search_text(index: &Index, e: &HashEmbedder, query: &str, k: usize) -> Result<Vec<Hit>, Error> {
    let meta = index.meta();
    check_embedder(e.dim(), e.id(), meta.dim, &meta.embedder_id)?;
    index.search_vector(&signs(&embed(e, query)), k)
}

#[test]
fn embedder_mismatch_is_rejected() {
    let mut disk = Disk::new();
    let cfg = IndexConfig { dim: 4 };
    let e1 = HashEmbedder::new("model-a", 4);
    let e2 = HashEmbedder::new("model-b", 4);

    let mut index = disk.create("mismatch", cfg).unwrap();
    add_texts(&mut index, &e1, &[id(1)], &["hello"]).unwrap();
    disk.publish("mismatch", &mut index).unwrap();

    let index = disk.open("mismatch").unwrap();
    let err = search_text(&index, &e2, "hello", 1).unwrap_err();
    assert!(matches!(err, Error::EmbedderMismatch { .. }));
}

#[test]
fn second_embedder_must_match_the_first() {
    let mut disk = Disk::new();
    let mut index = disk.create("names", IndexConfig { dim: 4 }).unwrap();
    assert_eq!(index.meta().embedder_id, "");
    let e1 = HashEmbedder::new("model-a", 4);
    let e2 = HashEmbedder::new("model-b", 4);
    let e3 = HashEmbedder::new("model-a", 5);
    add_texts(&mut index, &e1, &[id(1)], &["x"]).unwrap();
    assert_eq!(index.meta().embedder_id, "model-a");
    match add_texts(&mut index, &e2, &[id(2)], &["y"]) {
        Err(Error::EmbedderMismatch { expected, got }) => {
            assert_eq!(expected, "model-a");
            assert_eq!(got, "model-b");
        }
        other => panic!("unexpected {other:?}"),
    }
    assert!(matches!(
        add_texts(&mut index, &e3, &[id(2)], &["y"]),
        Err(Error::DimMismatch { expected: 4, got: 5 })
    ));
    match add_texts(&mut index, &e1, &[id(2)], &["y", "z"]) {
        Err(Error::InvalidArgument(msg)) => assert_eq!(msg, "ids and texts length mismatch"),
        other => panic!("unexpected {other:?}"),
    }
    assert_eq!(index.len(), 1);
}

#[test]
fn query_dim_mismatch_and_empty_index() {
    let mut disk = Disk::new();
    let mut index = disk.create("q", IndexConfig { dim: 4 }).unwrap();
    index.add_vectors(&[id(1)], &[true; 4]).unwrap();
    disk.publish("q", &mut index).unwrap();
    assert!(matches!(
        index.search_vector(&[true; 3], 1),
        Err(Error::DimMismatch { expected: 4, got: 3 })
    ));
    let never_loaded = Index::created(PathBuf::from("x"), Index::initial_meta(IndexConfig { dim: 4 }), None);
    assert!(matches!(never_loaded.search_vector(&[true; 4], 1), Err(Error::EmptyIndex)));
}

#[test]
fn hash_embedder_counts_each_byte_once() {
    let e = HashEmbedder::new("counter", 7);
    assert_eq!(e.id(), "counter");
    assert_eq!(e.dim(), 7);
    let text = "hello world";
    let counts = e.bucket_counts(text.as_bytes());
    assert_eq!(counts.len(), 7);
    assert_eq!(counts.iter().sum::<usize>(), text.len());
    let mut expected = vec![0usize; 7];
    let mut hash = 0xcbf29ce484222325u64;
    for byte in text.as_bytes() {
        hash ^= *byte as u64;
        hash = hash.wrapping_mul(0x100000001b3);
        expected[(hash as usize) % 7] += 1;
        hash = (hash << 13) | (hash >> 51);
    }
    assert_eq!(counts, expected);
    assert_eq!(e.bucket_counts(b""), vec![0usize; 7]);
}
