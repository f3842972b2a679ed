use std::collections::HashMap;
use std::path::PathBuf;

use babyvector::embed::check_embedder;
use babyvector::store::{ids_as_bytes, PublishedSnapshot, SnapshotLoad};
use babyvector::{Engine, Error, HashEmbedder, Hit, Index, IndexConfig, Meta};

fn id(byte: u8) -> [u8; 16] {
    [byte; 16]
}

fn stride_bytes(dim: usize) -> usize {
    let bytes = (dim + 7) / 8;
    ((bytes + 7) / 8) * 8
}

struct Written {
    meta: Meta,
    ids_bytes: Vec<u8>,
    vectors: Vec<u8>,
}

/// In-memory stand-in for the index directories under an engine root.
struct Disk {
    engine: Engine,
    dirs: HashMap<String, Written>,
}

impl Disk {
    fn new() -> Self {
        Disk { engine: Engine::with_root(PathBuf::from("root")), dirs: HashMap::new() }
    }

    fn load(w: &Written) -> Option<PublishedSnapshot> {
        match PublishedSnapshot::from_meta(w.meta.duplicate()).unwrap() {
            SnapshotLoad::Ready(s) => Some(s),
            SnapshotLoad::NeedsFiles(m) => {
                Some(PublishedSnapshot::from_files(m, &w.ids_bytes, w.vectors.clone()).unwrap())
            }
        }
    }

    fn create(&mut self, name: &str, cfg: IndexConfig) -> Result<Index, Error> {
        let dir = self.engine.index_dir(name)?;
        let meta = Index::initial_meta(cfg);
        let w = Written { meta: meta.duplicate(), ids_bytes: Vec::new(), vectors: Vec::new() };
        let snap = Self::load(&w);
        self.dirs.insert(name.to_string(), w);
        Ok(Index::created(dir, meta, snap))
    }

    fn open(&self, name: &str) -> Result<Index, Error> {
        let dir = self.engine.index_dir(name)?;
        match self.dirs.get(name) {
            None => Err(Error::IndexNotFound(name.to_string())),
            Some(w) => Index::opened(dir, Self::load(w)),
        }
    }

    fn publish(&mut self, name: &str, index: &mut Index) -> Result<(), Error> {
        let batch = index.prepare_publish()?;
        let w = Written {
            meta: batch.meta.duplicate(),
            ids_bytes: ids_as_bytes(&batch.ids),
            vectors: batch.vectors.clone(),
        };
        let snap = Self::load(&w);
        self.dirs.insert(name.to_string(), w);
        index.record_published_meta(batch.meta);
        index.install_snapshot(snap);
        Ok(())
    }
}

fn embed(e: &HashEmbedder, text: &str) -> Vec<f32> {
    let counts = e.bucket_counts(text.as_bytes());
    let mut v: Vec<f32> = counts.iter().map(|c| *c as f32).collect();
    let norm = v.iter().map(|x| x * x).sum::<f32>().sqrt();
    if norm > 1e-8 {
        for x in &mut v {
            *x /= norm;
        }
    }
    v
}

fn signs(v: &[f32]) -> Vec<bool> {
    v.iter().map(|x| *x >= 0.0).collect()
}

fn add_texts(index: &mut Index, e: &HashEmbedder, ids: &[[u8; 16]], texts: &[&str]) -> Result<(), Error> {
    index.prepare_add_texts(ids.len(), texts.len(), e.dim(), e.id())?;
    let flat: Vec<f32> = texts.iter().flat_map(|t| embed(e, t)).collect();
    index.add_vectors(ids, &signs(&flat))
}

fn search_text(index: &Index, e: &HashEmbedder, query: &str, k: usize) -> Result<Vec<Hit>, Error> {
    let meta = index.meta();
    check_embedder(e.dim(), e.id(), meta.dim, &meta.embedder_id)?;
    index.search_vector(&signs(&embed(e, query)), k)
}

#[test]
fn on_disk_layout_matches_meta() {
    let mut disk = Disk::new();
    let embedder = HashEmbedder::new("verify-model", 32);
    let mut index = disk.create("layout", IndexConfig { dim: 32 }).unwrap();

    add_texts(&mut index, &embedder, &[id(1), id(2), id(3)], &["alpha", "beta", "gamma"]).unwrap();
    disk.publish("layout", &mut index).unwrap();

    let opened = disk.open("layout").unwrap();
    let meta = opened.meta();
    assert_eq!(meta.version, 1);
    assert_eq!(meta.dim, 32);
    assert_eq!(meta.bits, 1);
    assert_eq!(meta.count, 3);
    assert_eq!(meta.generation, 1);
    assert_eq!(meta.id_width, 16);
    assert_eq!(meta.embedder_id, "verify-model");
    assert_eq!(meta.stride_bytes, stride_bytes(32));

    let w = disk.dirs.get("layout").unwrap();
    assert_eq!(w.ids_bytes.len(), meta.count * meta.id_width);
    assert_eq!(w.vectors.len(), meta.count * meta.stride_bytes);
}

#[test]
fn self_query_is_top_hit() {
    let mut disk = Disk::new();
    let dim = 8;
    let mut index = disk.create("self", IndexConfig { dim }).unwrap();
    let mut vectors = vec![-1.0f32; dim * 3];
    vectors[0] = 1.0;
    vectors[dim + 1] = 1.0;
    vectors[2 * dim + 2] = 1.0;
    index.add_vectors(&[id(10), id(11), id(12)], &signs(&vectors)).unwrap();
    disk.publish("self", &mut index).unwrap();

    let hits = index.search_vector(&signs(&vectors[dim..2 * dim]), 3).unwrap();
    assert_eq!(hits[0].id, id(11), "scores={:?}", hits);
    assert_eq!(hits.len(), 3);
}

#[test]
fn identical_one_bit_codes_score_plus_dim() {
    let dim = 16;
    let embedder = HashEmbedder::new("verify-model", dim);
    let vector = embed(&embedder, "same");
    let mut disk = Disk::new();
    let mut index = disk.create("score", IndexConfig { dim }).unwrap();
    index.add_vectors(&[id(1)], &signs(&vector)).unwrap();
    disk.publish("score", &mut index).unwrap();

    let hits = index.search_vector(&signs(&vector), 1).unwrap();
    assert_eq!(hits[0].id, id(1));
    assert_eq!(hits[0].score, dim as i128, "score={}", hits[0].score);
}

#[test]
fn rejects_path_escape_index_ids() {
    let mut disk = Disk::new();
    let cfg = IndexConfig { dim: 8 };
    for bad in ["../escape", "a/b", "a\\b", "foo..bar"] {
        match disk.create(bad, cfg) {
            Err(Error::InvalidIndexId(_)) => {}
            Err(err) => panic!("expected InvalidIndexId for {bad}, got {err:?}"),
            Ok(_) => panic!("expected InvalidIndexId for {bad}"),
        }
    }
}

#[test]
fn dim_mismatch_is_rejected() {
    let mut disk = Disk::new();
    let mut index = disk.create("dims", IndexConfig { dim: 8 }).unwrap();
    let err = index.add_vectors(&[id(1)], &signs(&[1.0, 2.0])).unwrap_err();
    assert!(matches!(err, Error::DimMismatch { expected: 8, got: 2 }));
}

#[test]
fn unpublished_rows_are_not_searchable() {
    let mut disk = Disk::new();
    let embedder = HashEmbedder::new("verify-model", 8);
    let mut index = disk.create("pending", IndexConfig { dim: 8 }).unwrap();
    add_texts(&mut index, &embedder, &[id(1)], &["secret"]).unwrap();
    assert_eq!(index.len(), 1);
    let hits = search_text(&index, &embedder, "secret", 5).unwrap();
    assert!(hits.is_empty());
}
