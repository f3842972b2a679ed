use std::collections::HashMap;
use std::path::PathBuf;

use babyvector::embed::check_embedder;
use babyvector::store::{ids_as_bytes, PublishedSnapshot, SnapshotLoad};
use babyvector::{Engine, Error, HashEmbedder, Hit, Index, IndexConfig, Meta};

fn id(byte: u8) -> [u8; 16] {
    [byte; 16]
}

struct Written {
    meta: Meta,
    ids_bytes: Vec<u8>,
    vectors: Vec<u8>,
}

/// In-memory stand-in for the index directories under an engine root.
struct Disk {
    engine: Engine,
    dirs: HashMap<String, Written>,
}

impl Disk {
    fn new() -> Self {
        Disk { engine: Engine::with_root(PathBuf::from("root")), dirs: HashMap::new() }
    }

    fn load(w: &Written) -> Option<PublishedSnapshot> {
        match PublishedSnapshot::from_meta(w.meta.duplicate()).unwrap() {
            SnapshotLoad::Ready(s) => Some(s),
            SnapshotLoad::NeedsFiles(m) => {
                Some(PublishedSnapshot::from_files(m, &w.ids_bytes, w.vectors.clone()).unwrap())
            }
        }
    }

    fn create(&mut self, name: &str, cfg: IndexConfig) -> Result<Index, Error> {
        let dir = self.engine.index_dir(name)?;
        let meta = Index::initial_meta(cfg);
        let w = Written { meta: meta.duplicate(), ids_bytes: Vec::new(), vectors: Vec::new() };
        let snap = Self::load(&w);
        self.dirs.insert(name.to_string(), w);
        Ok(Index::created(dir, meta, snap))
    }

    fn open(&self, name: &str) -> Result<Index, Error> {
        let dir = self.engine.index_dir(name)?;
        match self.dirs.get(name) {
            None => Err(Error::IndexNotFound(name.to_string())),
            Some(w) => Index::opened(dir, Self::load(w)),
        }
    }

    fn publish(&mut self, name: &str, index: &mut Index) -> Result<(), Error> {
        let batch = index.prepare_publish()?;
        let w = Written {
            meta: batch.meta.duplicate(),
            ids_bytes: ids_as_bytes(&batch.ids),
            vectors: batch.vectors.clone(),
        };
        let snap = Self::load(&w);
        self.dirs.insert(name.to_string(), w);
        index.record_published_meta(batch.meta);
        index.install_snapshot(snap);
        Ok(())
    }
}

fn embed(e: &HashEmbedder, text: &str) -> Vec<f32> {
    let counts = e.bucket_counts(text.as_bytes());
    let mut v: Vec<f32> = counts.iter().map(|c| *c as f32).collect();
    let norm = v.iter().map(|x| x * x).sum::<f32>().sqrt();
    if norm > 1e-8 {
        for x in &mut v {
            *x /= norm;
        }
    }
    v
}

fn signs(v: &[f32]) -> Vec<bool> {
    v.iter().map(|x| *x >= 0.0).collect()
}

fn add_texts(index: &mut Index, e: &HashEmbedder, ids: &[[u8; 16]], texts: &[&str]) -> Result<(), Error> {
    index.prepare_add_texts(ids.len(), texts.len(), e.dim(), e.id())?;
    let flat: Vec<f32> = texts.iter().flat_map(|t| embed(e, t)).collect();
    index.add_vectors(ids, &signs(&flat))
}

fn search_text(index: &Index, e: &HashEmbedder, query: &str, k: usize) -> Result<Vec<Hit>, Error> {
    let meta = index.meta();
    check_embedder(e.dim(), e.id(), meta.dim, &meta.embedder_id)?;
    index.search_vector(&signs(&embed(e, query)), k)
}

#[test]
fn indexes_do_not_share_vectors() {
    let mut disk = Disk::new();
    let embedder = HashEmbedder::new("test", 8);
    let cfg = IndexConfig { dim: 8 };

    let mut a = disk.create("alpha", cfg).unwrap();
    add_texts(&mut a, &embedder, &[id(1)], &["alpha only"]).unwrap();
    disk.publish("alpha", &mut a).unwrap();

    let mut b = disk.create("beta", cfg).unwrap();
    add_texts(&mut b, &embedder, &[id(2)], &["beta only"]).unwrap();
    disk.publish("beta", &mut b).unwrap();

    let a = disk.open("alpha").unwrap();
    let b = disk.open("beta").unwrap();

    let hits_a = search_text(&a, &embedder, "alpha only", 5).unwrap();
    let hits_b = search_text(&b, &embedder, "beta only", 5).unwrap();

    assert_eq!(hits_a.len(), 1);
    assert_eq!(hits_b.len(), 1);
    assert_eq!(hits_a[0].id, id(1));
    assert_eq!(hits_b[0].id, id(2));
}

#[test]
fn drop_index_removes_only_that_directory() {
    let mut disk = Disk::new();
    let embedder = HashEmbedder::new("verify-model", 8);
    let cfg = IndexConfig { dim: 8 };
    let mut keep = disk.create("keep", cfg).unwrap();
    add_texts(&mut keep, &embedder, &[id(1)], &["keep me"]).unwrap();
    disk.publish("keep", &mut keep).unwrap();
    let mut gone = disk.create("gone", cfg).unwrap();
    add_texts(&mut gone, &embedder, &[id(2)], &["delete me"]).unwrap();
    disk.publish("gone", &mut gone).unwrap();

    disk.engine.index_dir("gone").unwrap();
    disk.dirs.remove("gone");
    assert!(disk.dirs.contains_key("keep"));
    assert!(!disk.dirs.contains_key("gone"));
    match disk.open("gone") {
        Err(Error::IndexNotFound(_)) => {}
        Err(err) => panic!("expected IndexNotFound, got {err:?}"),
        Ok(_) => panic!("expected IndexNotFound, opened gone"),
    }
    let keep = disk.open("keep").unwrap();
    assert_eq!(search_text(&keep, &embedder, "keep me", 1).unwrap()[0].id, id(1));
}
