use vstd::prelude::*;

use std::path::PathBuf;

use crate::embed::check_embedder;
use crate::error::Error;
use crate::meta::{meta_supported, IndexConfig, Meta};
use crate::pack::{pack_1bit_query, row_packs, spec_stride_bytes, stride_bytes};
use crate::quant::quantize_row;
use crate::search::{
    is_top_k, lemma_hits_are_rows, lemma_row_scores_are_sign_scores, row_at_rank, row_of,
    sign_scores, top_k, words_read, Hit,
};
use crate::store::{
    ids_layout, lemma_ids_layout_ids_unique, snapshot_shape_ok, PublishBatch, PublishedSnapshot,
};

verus! {

/// The text `Path::to_string_lossy` gives for a path.
pub uninterp spec fn lossy_path_text(p: PathBuf) -> Seq<char>;

/// `Path::to_string_lossy`, owned: the path as text, with any sequence that
/// is not valid Unicode replaced.
#[verifier::external_body]
fn path_text(p: &PathBuf) -> (s: String)
    ensures
        s@ == lossy_path_text(*p),
{
    p.to_string_lossy().to_string()
}

/// A buffer of `n` zero bytes.
fn zeros(n: usize) -> (v: Vec<u8>)
    ensures
        v@.len() == n,
        forall|i: int| 0 <= i < n ==> #[trigger] v@[i] == 0u8,
{
    let mut v: Vec<u8> = Vec::new();
    let mut i: usize = 0;
    while i < n
        invariant
            i <= n,
            v@.len() == i,
            forall|j: int| 0 <= j < i ==> #[trigger] v@[j] == 0u8,
        decreases n - i,
    {
        v.push(0);
        i = i + 1;
    }
    v
}

/// Appends copies of `src` to `dst`.
fn append_copies<T: Copy>(dst: &mut Vec<T>, src: &[T])
    ensures
        final(dst)@ == old(dst)@ + src@,
{
    let n = src.len();
    let ghost start = dst@;
    let mut i: usize = 0;
    while i < n
        invariant
            n == src@.len(),
            i <= n,
            dst@ == start + src@.take(i as int),
        decreases n - i,
    {
        dst.push(src[i]);
        i = i + 1;
        assert(src@.take(i as int) =~= src@.take(i - 1).push(src@[i - 1]));
    }
    assert(src@.take(n as int) =~= src@);
}

/// `rows` holds `n` packed rows of `stride` bytes; row `r` packs the signs
/// of components `r * dim .. r * dim + dim` of `nonneg`.
pub open spec fn rows_pack(rows: Seq<u8>, stride: nat, dim: nat, nonneg: Seq<bool>, n: nat) -> bool {
    &&& rows.len() == n * stride
    &&& forall|r: int|
        0 <= r < n ==> row_packs(
            #[trigger] row_of(rows, stride, r),
            dim,
            nonneg.subrange(r * dim, r * dim + dim),
        )
}

/// Appending one more packed row keeps the rows packed.
proof fn lemma_rows_pack_push(
    acc: Seq<u8>,
    row: Seq<u8>,
    stride: nat,
    dim: nat,
    nonneg: Seq<bool>,
    i: nat,
)
    requires
        rows_pack(acc, stride, dim, nonneg, i),
        row.len() == stride,
        row_packs(row, dim, nonneg.subrange((i * dim) as int, (i * dim + dim) as int)),
    ensures
        rows_pack(acc + row, stride, dim, nonneg, i + 1),
{
    let next = acc + row;
    assert(next.len() == (i + 1) * stride) by (nonlinear_arith)
        requires
            next.len() == acc.len() + row.len(),
            acc.len() == i * stride,
            row.len() == stride,
    ;
    assert forall|r: int| 0 <= r < i + 1 implies row_packs(
        #[trigger] row_of(next, stride, r),
        dim,
        nonneg.subrange(r * dim, r * dim + dim),
    ) by {
        if r < i {
            assert(r * stride + stride <= i * stride) by (nonlinear_arith)
                requires
                    0 <= r < i,
            ;
            assert(0 <= r * stride) by (nonlinear_arith)
                requires
                    0 <= r,
            ;
            assert(row_of(next, stride, r) =~= row_of(acc, stride, r));
        } else {
            assert(row_of(next, stride, r) =~= row);
        }
    }
}

/// Two metadata records that agree on everything but the embedder id.
pub open spec fn same_but_embedder(a: Meta, b: Meta) -> bool {
    &&& a.version == b.version
    &&& a.dim == b.dim
    &&& a.bits == b.bits
    &&& a.count == b.count
    &&& a.generation == b.generation
    &&& a.stride_bytes == b.stride_bytes
    &&& a.id_width == b.id_width
}

/// One index: its directory, current metadata, the snapshot last read back
/// from disk, and the rows added since the last publish.
pub struct Index {
    dir: PathBuf,
    meta: Meta,
    snapshot: Option<PublishedSnapshot>,
    pending_ids: Vec<[u8; 16]>,
    pending_vectors: Vec<u8>,
}

impl Index {
    pub closed spec fn spec_dir(&self) -> PathBuf {
        self.dir
    }

    pub closed spec fn spec_meta(&self) -> Meta {
        self.meta
    }

    pub closed spec fn spec_snapshot(&self) -> Option<PublishedSnapshot> {
        self.snapshot
    }

    pub closed spec fn spec_pending_ids(&self) -> Seq<[u8; 16]> {
        self.pending_ids@
    }

    pub closed spec fn spec_pending_vectors(&self) -> Seq<u8> {
        self.pending_vectors@
    }

    /// The index's parts fit together: the metadata is supported (so the
    /// stride matches the dimension),
    /// every pending id has one packed row, and the snapshot is well formed.
    pub open spec fn wf(&self) -> bool {
        &&& meta_supported(self.spec_meta())
        &&& self.spec_pending_vectors().len() == self.spec_pending_ids().len()
            * self.spec_meta().stride_bytes
        &&& match self.spec_snapshot() {
            Some(s) => s.wf(),
            None => true,
        }
    }

    /// The snapshot agrees with the metadata on the row count and dimension.
    pub open spec fn in_sync(&self) -> bool {
        &&& self.spec_snapshot() is Some
        &&& self.spec_snapshot()->0.spec_meta().count == self.spec_meta().count
        &&& self.spec_snapshot()->0.spec_meta().dim == self.spec_meta().dim
    }

    /// Rows counted by the index: published ones plus pending ones.
    pub open spec fn spec_len(&self) -> nat {
        self.spec_meta().count as nat + self.spec_pending_ids().len()
    }

    /// The ids that searches see.
    pub open spec fn published_ids(&self) -> Seq<[u8; 16]> {
        match self.spec_snapshot() {
            Some(s) => s.spec_ids(),
            None => Seq::empty(),
        }
    }

    /// The packed rows that searches see.
    pub open spec fn published_vectors(&self) -> Seq<u8> {
        match self.spec_snapshot() {
            Some(s) => s.spec_vectors(),
            None => Seq::empty(),
        }
    }

    /// The metadata a publish writes: the same index with every row counted,
    /// the next generation and the stride of its dimension.
    pub open spec fn publish_meta(&self) -> Meta {
        Meta {
            version: self.spec_meta().version,
            dim: self.spec_meta().dim,
            bits: self.spec_meta().bits,
            count: (self.published_ids().len() + self.spec_pending_ids().len()) as usize,
            generation: (self.spec_meta().generation + 1) as u64,
            stride_bytes: spec_stride_bytes(self.spec_meta().dim as nat) as usize,
            id_width: self.spec_meta().id_width,
            embedder_id: self.spec_meta().embedder_id,
        }
    }

    /// A query of `query_len` components can be packed against the snapshot.
    pub open spec fn query_fits(&self, query_len: nat) -> bool {
        match self.spec_snapshot() {
            Some(s) => s.spec_meta().count > 0 && query_len == self.spec_meta().dim ==> s.spec_meta().dim
                <= query_len,
            None => true,
        }
    }

    /// A freshly created index: metadata `meta`, the snapshot read back after
    /// writing it, and nothing pending.
    pub fn created(dir: PathBuf, meta: Meta, snapshot: Option<PublishedSnapshot>) -> (idx: Index)
        requires
            meta_supported(meta),
            snapshot matches Some(s) ==> s.wf(),
        ensures
            idx.wf(),
            idx.spec_dir() == dir,
            idx.spec_meta() == meta,
            idx.spec_snapshot() == snapshot,
            idx.spec_pending_ids().len() == 0,
    {
        Index { dir, meta, snapshot, pending_ids: Vec::new(), pending_vectors: Vec::new() }
    }

    /// The fresh metadata of a new index: no rows, generation 0, and no
    /// embedder recorded yet.
    pub fn initial_meta(cfg: IndexConfig) -> (m: Meta)
        ensures
            meta_supported(m),
            m.dim == cfg.dim,
            m.count == 0,
            m.generation == 0,
            m.embedder_id@.len() == 0,
    {
        let m = Meta::new(cfg.dim, "");
        proof {
            reveal_strlit("");
        }
        m
    }

    /// An existing index, from the snapshot read from its directory; without
    /// a published snapshot there is no index.
    pub fn opened(dir: PathBuf, snapshot: Option<PublishedSnapshot>) -> (r: Result<Index, Error>)
        requires
            snapshot matches Some(s) ==> s.wf(),
        ensures
            r is Ok <==> snapshot is Some,
            r matches Err(e) ==> (e matches Error::IndexNotFound(s) && s@ == lossy_path_text(dir)),
            r matches Ok(idx) ==> {
                &&& idx.wf()
                &&& idx.in_sync()
                &&& idx.spec_dir() == dir
                &&& idx.spec_meta() == snapshot->0.spec_meta()
                &&& idx.spec_snapshot() == snapshot
                &&& idx.spec_pending_ids().len() == 0
            },
    {
        match snapshot {
            Some(s) => {
                let meta = s.meta().duplicate();
                Ok(Index {
                    dir,
                    meta,
                    snapshot: Some(s),
                    pending_ids: Vec::new(),
                    pending_vectors: Vec::new(),
                })
            },
            None => Err(Error::IndexNotFound(path_text(&dir))),
        }
    }

    /// The index's directory.
    pub fn dir(&self) -> (d: &PathBuf)
        ensures
            *d == self.spec_dir(),
    {
        &self.dir
    }

    /// The index's current metadata.
    pub fn meta(&self) -> (m: &Meta)
        ensures
            *m == self.spec_meta(),
    {
        &self.meta
    }

    /// Published rows plus pending rows.
    pub fn len(&self) -> (n: usize)
        requires
            self.spec_len() <= usize::MAX,
        ensures
            n == self.spec_len(),
    {
        self.meta.count + self.pending_ids.len()
    }

    /// Rows added but not yet published.
    pub fn pending_len(&self) -> (n: usize)
        ensures
            n == self.spec_pending_ids().len(),
    {
        self.pending_ids.len()
    }

    /// The snapshot last read back, if any.
    pub fn snapshot(&self) -> (s: Option<&PublishedSnapshot>)
        ensures
            s matches Some(x) ==> self.spec_snapshot() == Some(*x),
            s is None ==> self.spec_snapshot() is None,
    {
        match &self.snapshot {
            Some(x) => Some(x),
            None => None,
        }
    }

    /// The embedder must have the index's dimension; the first embedder seen
    /// names the index, later ones must carry the same name.
    fn ensure_embedder(&mut self, embedder_dim: usize, embedder_id: &str) -> (r: Result<(), Error>)
        ensures
            embedder_dim != old(self).spec_meta().dim ==> (r matches Err(Error::DimMismatch { expected, got })
                && expected == old(self).spec_meta().dim && got == embedder_dim),
            embedder_dim == old(self).spec_meta().dim && old(self).spec_meta().embedder_id@.len() == 0 ==> r
                is Ok && final(self).spec_meta().embedder_id@ == embedder_id@,
            embedder_dim == old(self).spec_meta().dim && old(self).spec_meta().embedder_id@.len() > 0 ==> {
                &&& r is Ok <==> embedder_id@ == old(self).spec_meta().embedder_id@
                &&& r matches Err(e) ==> (e matches Error::EmbedderMismatch { expected, got }
                    && expected@ == old(self).spec_meta().embedder_id@ && got@ == embedder_id@)
            },
            same_but_embedder(final(self).spec_meta(), old(self).spec_meta()),
            !(embedder_dim == old(self).spec_meta().dim && old(self).spec_meta().embedder_id@.len()
                == 0) ==> final(self).spec_meta() == old(self).spec_meta(),
            final(self).spec_meta().embedder_id@ == (if embedder_dim == old(self).spec_meta().dim
                && old(self).spec_meta().embedder_id@.len() == 0 {
                embedder_id@
            } else {
                old(self).spec_meta().embedder_id@
            }),
            final(self).spec_dir() == old(self).spec_dir(),
            final(self).spec_snapshot() == old(self).spec_snapshot(),
            final(self).spec_pending_ids() == old(self).spec_pending_ids(),
            final(self).spec_pending_vectors() == old(self).spec_pending_vectors(),
    {
        if embedder_dim != self.meta.dim {
            return Err(Error::DimMismatch { expected: self.meta.dim, got: embedder_dim });
        }
        if self.meta.embedder_id.as_str().is_empty() {
            self.meta.embedder_id = <String as StringExecFns>::from_str(embedder_id);
            return Ok(());
        }
        check_embedder(embedder_dim, embedder_id, self.meta.dim, self.meta.embedder_id.as_str())
    }

    /// Quantizes `ids.len()` rows of `dim` components each (`nonneg` holds
    /// the sign of every component, row after row) and adds them as pending
    /// rows; nothing is searchable before the next publish.
    pub fn add_vectors(&mut self, ids: &[[u8; 16]], nonneg: &[bool]) -> (r: Result<(), Error>)
        requires
            old(self).wf(),
            ids@.len() * old(self).spec_meta().dim <= usize::MAX,
        ensures
            final(self).wf(),
            final(self).spec_dir() == old(self).spec_dir(),
            final(self).spec_meta() == old(self).spec_meta(),
            final(self).spec_snapshot() == old(self).spec_snapshot(),
            r is Ok <==> ids@.len() == 0 || nonneg@.len() == ids@.len() * old(self).spec_meta().dim,
            r matches Err(e) ==> {
                &&& e matches Error::DimMismatch { expected, got }
                &&& expected == old(self).spec_meta().dim
                &&& got == nonneg@.len() / ids@.len()
                &&& final(self).spec_pending_ids() == old(self).spec_pending_ids()
                &&& final(self).spec_pending_vectors() == old(self).spec_pending_vectors()
            },
            r is Ok ==> {
                &&& final(self).spec_pending_ids() == old(self).spec_pending_ids() + ids@
                &&& final(self).spec_pending_vectors().take(
                    old(self).spec_pending_vectors().len() as int,
                ) == old(self).spec_pending_vectors()
                &&& rows_pack(
                    final(self).spec_pending_vectors().skip(
                        old(self).spec_pending_vectors().len() as int,
                    ),
                    old(self).spec_meta().stride_bytes as nat,
                    old(self).spec_meta().dim as nat,
                    nonneg@,
                    ids@.len(),
                )
            },
    {
        let n = ids.len();
        let ghost old_pv = self.pending_vectors@;
        let ghost old_pi = self.pending_ids@;
        if n == 0 {
            proof {
                assert(old_pi + ids@ =~= old_pi);
                assert(old_pv.take(old_pv.len() as int) =~= old_pv);
                assert(old_pv.skip(old_pv.len() as int) =~= Seq::<u8>::empty());
            }
            return Ok(());
        }
        let dim = self.meta.dim;
        if nonneg.len() != n * dim {
            return Err(Error::DimMismatch { expected: dim, got: nonneg.len() / n });
        }
        let stride = self.meta.stride_bytes;
        let mut i: usize = 0;
        while i < n
            invariant
                n == ids@.len(),
                dim == self.spec_meta().dim,
                stride == self.spec_meta().stride_bytes,
                stride == spec_stride_bytes(dim as nat),
                nonneg@.len() == n * dim,
                n * dim <= usize::MAX,
                i <= n,
                self.spec_dir() == old(self).spec_dir(),
                self.spec_meta() == old(self).spec_meta(),
                self.spec_snapshot() == old(self).spec_snapshot(),
                old_pi == old(self).spec_pending_ids(),
                old_pv == old(self).spec_pending_vectors(),
                old_pv.len() == old_pi.len() * stride,
                self.spec_pending_ids() == old_pi + ids@.take(i as int),
                self.spec_pending_vectors().take(old_pv.len() as int) == old_pv,
                self.spec_pending_vectors().len() >= old_pv.len(),
                rows_pack(
                    self.spec_pending_vectors().skip(old_pv.len() as int),
                    stride as nat,
                    dim as nat,
                    nonneg@,
                    i as nat,
                ),
                match self.spec_snapshot() {
                    Some(s) => s.wf(),
                    None => true,
                },
            decreases n - i,
        {
            assert(i * dim + dim <= n * dim) by (nonlinear_arith)
                requires
                    i < n,
            ;
            let start = i * dim;
            let row_vec = &nonneg[start..start + dim];
            let mut row = zeros(stride);
            quantize_row(dim, row_vec, row.as_mut_slice());
            let ghost acc = self.pending_vectors@.skip(old_pv.len() as int);
            proof {
                assert(row_vec@ =~= nonneg@.subrange(i * dim, i * dim + dim));
                lemma_rows_pack_push(acc, row@, stride as nat, dim as nat, nonneg@, i as nat);
            }
            self.pending_ids.push(ids[i]);
            self.pending_vectors.extend_from_slice(row.as_slice());
            proof {
                assert(self.pending_vectors@.skip(old_pv.len() as int) =~= acc + row@);
                assert(self.pending_vectors@.take(old_pv.len() as int) =~= old_pv);
                assert(ids@.take(i + 1) =~= ids@.take(i as int).push(ids@[i as int]));
                assert(self.pending_ids@ =~= old_pi + ids@.take(i + 1));
            }
            i = i + 1;
        }
        proof {
            assert(ids@.take(n as int) =~= ids@);
            let acc = self.pending_vectors@.skip(old_pv.len() as int);
            assert(self.pending_vectors@ =~= old_pv + acc);
            assert(self.pending_vectors@.len() == self.pending_ids@.len() * stride) by (nonlinear_arith)
                requires
                    self.pending_vectors@.len() == old_pv.len() + acc.len(),
                    old_pv.len() == old_pi.len() * stride,
                    acc.len() == n * stride,
                    self.pending_ids@.len() == old_pi.len() + n,
            ;
        }
        Ok(())
    }

    /// The checks that come before embedding texts: one id per text, then an
    /// embedder of the index's dimension and name (the first embedder seen
    /// names the index).
    pub fn prepare_add_texts(
        &mut self,
        ids_len: usize,
        texts_len: usize,
        embedder_dim: usize,
        embedder_id: &str,
    ) -> (r: Result<(), Error>)
        requires
            old(self).wf(),
        ensures
            final(self).wf(),
            final(self).spec_dir() == old(self).spec_dir(),
            final(self).spec_snapshot() == old(self).spec_snapshot(),
            final(self).spec_pending_ids() == old(self).spec_pending_ids(),
            final(self).spec_pending_vectors() == old(self).spec_pending_vectors(),
            same_but_embedder(final(self).spec_meta(), old(self).spec_meta()),
            ids_len != texts_len ==> (r matches Err(Error::InvalidArgument(msg)) && msg@
                == "ids and texts length mismatch"@) && final(self).spec_meta() == old(
                self,
            ).spec_meta(),
            ids_len == texts_len && embedder_dim != old(self).spec_meta().dim ==> (r matches Err(
                Error::DimMismatch { expected, got },
            ) && expected == old(self).spec_meta().dim && got == embedder_dim),
            ids_len == texts_len && embedder_dim == old(self).spec_meta().dim ==> {
                &&& r is Ok <==> (old(self).spec_meta().embedder_id@.len() == 0
                    || embedder_id@ == old(self).spec_meta().embedder_id@)
                &&& r matches Err(e) ==> (e matches Error::EmbedderMismatch { expected, got }
                    && expected@ == old(self).spec_meta().embedder_id@ && got@ == embedder_id@)
                &&& final(self).spec_meta().embedder_id@ == (if old(self).spec_meta().embedder_id@.len()
                    == 0 {
                    embedder_id@
                } else {
                    old(self).spec_meta().embedder_id@
                })
            },
            embedder_dim != old(self).spec_meta().dim ==> final(self).spec_meta() == old(self).spec_meta(),
    {
        if ids_len != texts_len {
            return Err(
                Error::InvalidArgument(
                    <String as StringExecFns>::from_str("ids and texts length mismatch"),
                ),
            );
        }
        self.ensure_embedder(embedder_dim, embedder_id)
    }

    /// What the next publish writes: the published rows followed by the
    /// pending ones, with the next generation's metadata. Nothing pending,
    /// nothing to publish.
    pub fn prepare_publish(&self) -> (r: Result<PublishBatch, Error>)
        requires
            self.wf(),
            self.spec_meta().generation < u64::MAX,
        ensures
            r is Ok <==> self.spec_pending_ids().len() > 0,
            r matches Err(e) ==> e is NothingToPublish,
            r matches Ok(b) ==> {
                &&& b.ids@ == self.published_ids() + self.spec_pending_ids()
                &&& b.vectors@ == self.published_vectors() + self.spec_pending_vectors()
                &&& b.meta == self.publish_meta()
            },
    {
        if self.pending_ids.len() == 0 {
            return Err(Error::NothingToPublish);
        }
        let mut all_ids: Vec<[u8; 16]> = Vec::new();
        let mut all_vectors: Vec<u8> = Vec::new();
        match &self.snapshot {
            Some(snap) => {
                if snap.meta().count > 0 {
                    append_copies(&mut all_ids, snap.ids());
                    append_copies(&mut all_vectors, snap.vectors());
                } else {
                    assert(snap.spec_ids() =~= Seq::<[u8; 16]>::empty());
                    assert(snap.spec_vectors().len() == 0) by (nonlinear_arith)
                        requires
                            snap.spec_vectors().len() == snap.spec_meta().count
                                * snap.spec_meta().stride_bytes,
                            snap.spec_meta().count == 0,
                    ;
                    assert(snap.spec_vectors() =~= Seq::<u8>::empty());
                }
            },
            None => {},
        }
        append_copies(&mut all_ids, self.pending_ids.as_slice());
        append_copies(&mut all_vectors, self.pending_vectors.as_slice());
        assert(all_ids@ =~= self.published_ids() + self.spec_pending_ids());
        assert(all_vectors@ =~= self.published_vectors() + self.spec_pending_vectors());
        let generation = self.meta.generation + 1;
        let count = all_ids.len();
        let mut meta = self.meta.duplicate();
        meta.count = count;
        meta.generation = generation;
        meta.stride_bytes = stride_bytes(meta.dim);
        Ok(PublishBatch { ids: all_ids, vectors: all_vectors, meta })
    }

    /// After the batch is swapped in on disk: the index's metadata becomes the
    /// batch's.
    pub fn record_published_meta(&mut self, meta: Meta)
        requires
            old(self).wf(),
            meta_supported(meta),
            meta.dim == old(self).spec_meta().dim,
        ensures
            final(self).wf(),
            final(self).spec_meta() == meta,
            final(self).spec_dir() == old(self).spec_dir(),
            final(self).spec_snapshot() == old(self).spec_snapshot(),
            final(self).spec_pending_ids() == old(self).spec_pending_ids(),
            final(self).spec_pending_vectors() == old(self).spec_pending_vectors(),
    {
        self.meta = meta;
    }

    /// After the published snapshot is read back: searches see it, and the
    /// rows it now holds are no longer pending.
    pub fn install_snapshot(&mut self, snapshot: Option<PublishedSnapshot>)
        requires
            old(self).wf(),
            snapshot matches Some(s) ==> s.wf(),
        ensures
            final(self).wf(),
            final(self).spec_snapshot() == snapshot,
            final(self).spec_meta() == old(self).spec_meta(),
            final(self).spec_dir() == old(self).spec_dir(),
            final(self).spec_pending_ids().len() == 0,
            final(self).spec_pending_vectors().len() == 0,
    {
        self.snapshot = snapshot;
        self.pending_ids.clear();
        self.pending_vectors.clear();
    }

    /// The `k` published rows most similar to the query (`nonneg` holds the
    /// sign of each of its components), best first. Pending rows are not
    /// searched.
    pub fn search_vector(&self, nonneg: &[bool], k: usize) -> (r: Result<Vec<Hit>, Error>)
        requires
            self.wf(),
            self.query_fits(nonneg@.len()),
        ensures
            self.spec_snapshot() is None ==> (r matches Err(e) && e is EmptyIndex),
            self.spec_snapshot() matches Some(s) ==> {
                let m = s.spec_meta();
                &&& m.count == 0 ==> (r matches Ok(h) && h@.len() == 0)
                &&& m.count > 0 && nonneg@.len() != self.spec_meta().dim ==> (r matches Err(
                    Error::DimMismatch { expected, got },
                ) && expected == self.spec_meta().dim && got == nonneg@.len())
                &&& m.count > 0 && nonneg@.len() == self.spec_meta().dim ==> (r matches Ok(hits)
                    && hits@.len() == (if k < m.count { k } else { m.count }))
                &&& m.count > 0 && nonneg@.len() == self.spec_meta().dim ==> (r matches Ok(hits)
                    && is_top_k(
                    sign_scores(
                        m.dim as nat,
                        m.stride_bytes as nat,
                        m.count as nat,
                        s.spec_vectors(),
                        nonneg@,
                    ),
                    s.spec_ids(),
                    k as nat,
                    hits@,
                ))
            },
    {
        let snap = match &self.snapshot {
            Some(s) => s,
            None => {
                return Err(Error::EmptyIndex);
            },
        };
        let m = snap.meta();
        if m.count == 0 {
            return Ok(Vec::new());
        }
        if nonneg.len() != self.meta.dim {
            return Err(Error::DimMismatch { expected: self.meta.dim, got: nonneg.len() });
        }
        let stride = m.stride_bytes;
        let mut query_packed = zeros(stride);
        pack_1bit_query(m.dim, nonneg, query_packed.as_mut_slice());
        proof {
            assert(8 * words_read(m.dim as nat, stride as nat) <= stride);
            lemma_row_scores_are_sign_scores(
                m.dim as nat,
                stride as nat,
                m.count as nat,
                snap.spec_vectors(),
                query_packed@,
                nonneg@,
            );
            assert(snap.spec_ids().take(m.count as int) =~= snap.spec_ids());
        }
        let hits = top_k(m.dim, stride, m.count, snap.ids(), snap.vectors(), query_packed.as_slice(), k);
        Ok(hits)
    }

} // impl Index

/// A publish writes a batch whose parts fit together: its metadata is
/// supported, and it has one id and one packed row for every row counted.
pub proof fn lemma_publish_batch_shape(before: Index)
    requires
        before.wf(),
        before.in_sync(),
        before.spec_meta().generation < u64::MAX,
        before.published_ids().len() + before.spec_pending_ids().len() <= usize::MAX,
    ensures
        snapshot_shape_ok(
            before.publish_meta(),
            before.published_ids() + before.spec_pending_ids(),
            before.published_vectors() + before.spec_pending_vectors(),
        ),
{
    let s = before.spec_snapshot()->0;
    let stride = before.spec_meta().stride_bytes as int;
    let c = s.spec_meta().count as int;
    let p = before.spec_pending_ids().len() as int;
    assert(s.spec_meta().stride_bytes == stride);
    assert((c + p) * stride == c * stride + p * stride) by (nonlinear_arith);
}

/// What a read gives back of a write: metadata, id bytes and row bytes read
/// back unchanged from what a publish wrote load as exactly the batch.
pub proof fn lemma_reload_returns_batch(
    batch_meta: Meta,
    batch_ids: Seq<[u8; 16]>,
    batch_vectors: Seq<u8>,
    ids_bytes: Seq<u8>,
    loaded: PublishedSnapshot,
)
    requires
        snapshot_shape_ok(batch_meta, batch_ids, batch_vectors),
        ids_layout(batch_ids, ids_bytes),
        loaded.spec_meta() == batch_meta,
        ids_layout(loaded.spec_ids(), ids_bytes),
        loaded.spec_vectors() == batch_vectors,
    ensures
        loaded.spec_ids() == batch_ids,
        loaded.wf(),
{
    lemma_ids_layout_ids_unique(loaded.spec_ids(), batch_ids, ids_bytes);
}

/// Publishing appends: when the snapshot read back after a publish holds
/// what the batch wrote, searches see the rows published before followed by
/// the pending rows, nothing stays pending, the row count is unchanged and
/// the generation moves on by one.
pub proof fn lemma_publish_appends(
    before: Index,
    batch: PublishBatch,
    loaded: PublishedSnapshot,
    after: Index,
)
    requires
        before.wf(),
        before.in_sync(),
        before.spec_meta().generation < u64::MAX,
        batch.ids@ == before.published_ids() + before.spec_pending_ids(),
        batch.vectors@ == before.published_vectors() + before.spec_pending_vectors(),
        batch.meta == before.publish_meta(),
        loaded.spec_meta() == batch.meta,
        loaded.spec_ids() == batch.ids@,
        loaded.spec_vectors() == batch.vectors@,
        after.spec_meta() == batch.meta,
        after.spec_snapshot() == Some(loaded),
        after.spec_pending_ids().len() == 0,
        after.spec_pending_vectors().len() == 0,
    ensures
        after.wf(),
        after.in_sync(),
        after.published_ids() == before.published_ids() + before.spec_pending_ids(),
        after.published_vectors() == before.published_vectors() + before.spec_pending_vectors(),
        after.spec_len() == before.spec_len(),
        after.spec_meta().generation == before.spec_meta().generation + 1,
{
    assert(batch.ids.len() == batch.ids@.len());
    lemma_publish_batch_shape(before);
}

/// Only published rows are searched: every hit of a search over the
/// snapshot is one of its rows, with that row's id, so rows added since the
/// last publish are never returned.
pub proof fn lemma_hits_are_published(idx: Index, nonneg: Seq<bool>, k: nat, hits: Seq<Hit>)
    requires
        idx.wf(),
        idx.spec_snapshot() is Some,
        is_top_k(
            sign_scores(
                idx.spec_snapshot()->0.spec_meta().dim as nat,
                idx.spec_snapshot()->0.spec_meta().stride_bytes as nat,
                idx.spec_snapshot()->0.spec_meta().count as nat,
                idx.published_vectors(),
                nonneg,
            ),
            idx.published_ids(),
            k,
            hits,
        ),
    ensures
        forall|r: int|
            0 <= r < hits.len() ==> {
                let i = #[trigger] row_at_rank(
                    sign_scores(
                        idx.spec_snapshot()->0.spec_meta().dim as nat,
                        idx.spec_snapshot()->0.spec_meta().stride_bytes as nat,
                        idx.spec_snapshot()->0.spec_meta().count as nat,
                        idx.published_vectors(),
                        nonneg,
                    ),
                    r,
                );
                &&& 0 <= i < idx.published_ids().len()
                &&& hits[r].id == idx.published_ids()[i]
            },
{
    let s = idx.spec_snapshot()->0;
    let scores = sign_scores(
        s.spec_meta().dim as nat,
        s.spec_meta().stride_bytes as nat,
        s.spec_meta().count as nat,
        idx.published_vectors(),
        nonneg,
    );
    lemma_hits_are_rows(scores, idx.published_ids(), k, hits);
}

} // verus!
