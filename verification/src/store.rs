use vstd::prelude::*;

use std::path::{Path, PathBuf};

use crate::error::Error;
use crate::meta::{meta_supported, Meta, ID_WIDTH};
use crate::text::{decimal, decimal_string, message_with_number};

verus! {

/// File holding the published metadata.
pub const META_FILE: &'static str = "meta.json";

/// File holding the published row ids, 16 bytes each.
pub const IDS_FILE: &'static str = "ids.bin";

/// File holding the published packed rows.
pub const VECTORS_FILE: &'static str = "vectors.bin";

/// Advisory lock file taken while publishing.
pub const LOCK_FILE: &'static str = "LOCK";

/// Directory where a publish is written before it is swapped in.
pub const STAGING_DIR: &'static str = ".staging";

#[verifier::external_type_specification]
#[verifier::external_body]
pub struct ExPathBuf(PathBuf);

#[verifier::external_type_specification]
#[verifier::external_body]
pub struct ExPath(Path);

/// The path `Path::join` builds from a base path and one more component.
pub uninterp spec fn joined_path(base: &Path, component: Seq<char>) -> PathBuf;

/// `Path::join`: the base path with `component` appended.
#[verifier::external_body]
fn path_join(base: &Path, component: &str) -> (p: PathBuf)
    ensures
        p == joined_path(base, component@),
{
    base.join(component)
}

/// An index id names one directory directly under the root: 1 to 128 bytes
/// long, with no path separator and no `..`.
pub open spec fn index_id_ok(id: Seq<char>, byte_len: nat) -> bool {
    &&& id.len() > 0
    &&& byte_len <= 128
    &&& !id.contains('/')
    &&& !id.contains('\\')
    &&& !(exists|i: int| 0 <= i < id.len() - 1 && #[trigger] id[i] == '.' && id[i + 1] == '.')
}

/// An id is accepted exactly when it is non-empty, at most 128 bytes long,
/// has no `/` and no `\\` anywhere, and no two adjacent dots; every other
/// character, digits included, is allowed.
pub proof fn lemma_index_id_ok_exactly(id: Seq<char>, byte_len: nat)
    ensures
        index_id_ok(id, byte_len) <==> {
            &&& id.len() > 0
            &&& byte_len <= 128
            &&& forall|i: int| 0 <= i < id.len() ==> #[trigger] id[i] != '/' && id[i] != '\\'
            &&& forall|i: int|
                0 <= i < id.len() - 1 ==> !(#[trigger] id[i] == '.' && id[i + 1] == '.')
        },
{
    if forall|i: int| 0 <= i < id.len() ==> #[trigger] id[i] != '/' && id[i] != '\\' {
        assert(!id.contains('/'));
        assert(!id.contains('\\'));
    }
    if id.contains('/') {
        let j = choose|j: int| 0 <= j < id.len() && id[j] == '/';
        assert(id[j] == '/');
    }
    if id.contains('\\') {
        let j = choose|j: int| 0 <= j < id.len() && id[j] == '\\';
        assert(id[j] == '\\');
    }
}

/// Accepts exactly the ids that name a single directory component.
pub fn validate_index_id(index_id: &str) -> (r: Result<(), Error>)
    ensures
        r is Ok <==> index_id_ok(index_id@, index_id.len() as nat),
        r is Ok <==> {
            &&& index_id@.len() > 0
            &&& index_id.len() <= 128
            &&& forall|i: int|
                0 <= i < index_id@.len() ==> #[trigger] index_id@[i] != '/' && index_id@[i] != '\\'
            &&& forall|i: int|
                0 <= i < index_id@.len() - 1 ==> !(#[trigger] index_id@[i] == '.' && index_id@[i + 1]
                    == '.')
        },
        r matches Err(e) ==> (e matches Error::InvalidIndexId(s) && s@ == index_id@),
{
    proof {
        lemma_index_id_ok_exactly(index_id@, index_id.len() as nat);
    }
    if index_id.is_empty() || index_id.len() > 128 {
        return Err(Error::InvalidIndexId(index_id.to_owned()));
    }
    let n = index_id.unicode_len();
    let mut i: usize = 0;
    while i < n
        invariant
            n == index_id@.len(),
            i <= n,
            forall|j: int| 0 <= j < i ==> #[trigger] index_id@[j] != '/' && index_id@[j] != '\\',
            forall|j: int| 0 <= j < i && j + 1 < n ==> !(#[trigger] index_id@[j] == '.' && index_id@[j + 1] == '.'),
        decreases n - i,
    {
        let c = index_id.get_char(i);
        if c == '/' || c == '\\' {
            assert(index_id@[i as int] == c);
            return Err(Error::InvalidIndexId(index_id.to_owned()));
        }
        if c == '.' && i + 1 < n {
            let d = index_id.get_char(i + 1);
            if d == '.' {
                assert(index_id@[i as int] == '.' && index_id@[i + 1] == '.');
                return Err(Error::InvalidIndexId(index_id.to_owned()));
            }
        }
        i = i + 1;
    }
    Ok(())
}

/// The directory of index `index_id` under `root`, for a valid id.
pub fn index_dir(root: &Path, index_id: &str) -> (r: Result<PathBuf, Error>)
    ensures
        r is Ok <==> index_id_ok(index_id@, index_id.len() as nat),
        r is Ok <==> {
            &&& index_id@.len() > 0
            &&& index_id.len() <= 128
            &&& forall|i: int|
                0 <= i < index_id@.len() ==> #[trigger] index_id@[i] != '/' && index_id@[i] != '\\'
            &&& forall|i: int|
                0 <= i < index_id@.len() - 1 ==> !(#[trigger] index_id@[i] == '.' && index_id@[i + 1]
                    == '.')
        },
        r matches Ok(p) ==> p == joined_path(root, index_id@),
        r matches Err(e) ==> (e matches Error::InvalidIndexId(s) && s@ == index_id@),
{
    validate_index_id(index_id)?;
    Ok(path_join(root, index_id))
}

/// `bytes` is the row-major layout of `ids`: 16 bytes per id, in order.
pub open spec fn ids_layout(ids: Seq<[u8; 16]>, bytes: Seq<u8>) -> bool {
    &&& bytes.len() == 16 * ids.len()
    &&& forall|i: int, j: int|
        0 <= i < ids.len() && 0 <= j < 16 ==> #[trigger] bytes[16 * i + j] == ids[i][j]
}

/// Lays the ids out one after another, 16 bytes each.
pub fn ids_as_bytes(ids: &[[u8; 16]]) -> (out: Vec<u8>)
    ensures
        ids_layout(ids@, out@),
{
    let n = ids.len();
    let mut out: Vec<u8> = Vec::new();
    let mut i: usize = 0;
    while i < n
        invariant
            n == ids@.len(),
            i <= n,
            ids_layout(ids@.take(i as int), out@),
        decreases n - i,
    {
        let id = ids[i];
        let mut j: usize = 0;
        while j < 16
            invariant
                n == ids@.len(),
                i < n,
                j <= 16,
                id == ids@[i as int],
                out@.len() == 16 * i + j,
                forall|a: int, b: int|
                    0 <= a < i && 0 <= b < 16 ==> #[trigger] out@[16 * a + b] == ids@[a][b],
                forall|b: int| 0 <= b < j ==> #[trigger] out@[16 * i + b] == id[b],
            decreases 16 - j,
        {
            out.push(id[j]);
            j = j + 1;
        }
        i = i + 1;
        proof {
            let taken = ids@.take(i as int);
            assert forall|a: int, b: int| 0 <= a < taken.len() && 0 <= b < 16 implies #[trigger] out@[16
                * a + b] == taken[a][b] by {
                if a == i - 1 {
                    assert(out@[16 * (i - 1) + b] == id[b]);
                }
            }
        }
    }
    assert(ids@.take(n as int) =~= ids@);
    out
}

/// Splits `bytes` into consecutive 16-byte ids.
pub fn ids_from_bytes(bytes: &[u8]) -> (ids: Vec<[u8; 16]>)
    requires
        bytes@.len() % 16 == 0,
    ensures
        ids_layout(ids@, bytes@),
{
    let count = bytes.len() / 16;
    let mut ids: Vec<[u8; 16]> = Vec::new();
    let mut i: usize = 0;
    while i < count
        invariant
            count == bytes@.len() / 16,
            bytes@.len() % 16 == 0,
            i <= count,
            ids@.len() == i,
            forall|a: int, b: int|
                0 <= a < i && 0 <= b < 16 ==> #[trigger] bytes@[16 * a + b] == ids@[a][b],
        decreases count - i,
    {
        let mut row = [0u8; 16];
        let blen = bytes.len();
        assert(16 * i + 16 <= blen) by (nonlinear_arith)
            requires
                i < count,
                count == blen / 16,
        ;
        let base = 16 * i;
        let mut j: usize = 0;
        while j < 16
            invariant
                count == bytes@.len() / 16,
                i < count,
                base == 16 * i,
                base + 16 <= bytes@.len(),
                j <= 16,
                forall|b: int| 0 <= b < j ==> #[trigger] row@[b] == bytes@[16 * i + b],
            decreases 16 - j,
        {
            row[j] = bytes[base + j];
            j = j + 1;
        }
        ids.push(row);
        i = i + 1;
    }
    ids
}

/// Two layouts of the same ids are the same bytes.
pub proof fn lemma_ids_layout_bytes_unique(ids: Seq<[u8; 16]>, b1: Seq<u8>, b2: Seq<u8>)
    requires
        ids_layout(ids, b1),
        ids_layout(ids, b2),
    ensures
        b1 == b2,
{
    assert forall|k: int| 0 <= k < b1.len() implies b1[k] == b2[k] by {
        let i = k / 16;
        let j = k % 16;
        assert(k == 16 * i + j);
        assert(b1[16 * i + j] == ids[i][j]);
        assert(b2[16 * i + j] == ids[i][j]);
    }
    assert(b1 =~= b2);
}

/// The bytes of a layout determine the ids.
pub proof fn lemma_ids_layout_ids_unique(i1: Seq<[u8; 16]>, i2: Seq<[u8; 16]>, bytes: Seq<u8>)
    requires
        ids_layout(i1, bytes),
        ids_layout(i2, bytes),
    ensures
        i1 == i2,
{
    assert forall|i: int| 0 <= i < i1.len() implies i1[i] == i2[i] by {
        assert forall|j: int| 0 <= j < 16 implies i1[i]@[j] == i2[i]@[j] by {
            assert(bytes[16 * i + j] == i1[i][j]);
            assert(bytes[16 * i + j] == i2[i][j]);
        }
        assert(i1[i]@ =~= i2[i]@);
    }
    assert(i1 =~= i2);
}

/// What a publish writes: every id and packed row of the new snapshot, and
/// its metadata.
pub struct PublishBatch {
    pub ids: Vec<[u8; 16]>,
    pub vectors: Vec<u8>,
    pub meta: Meta,
}

/// The shape a published snapshot must have: supported metadata, one id per
/// row and one stride of packed bits per row.
pub open spec fn snapshot_shape_ok(meta: Meta, ids: Seq<[u8; 16]>, vectors: Seq<u8>) -> bool {
    &&& meta_supported(meta)
    &&& ids.len() == meta.count
    &&& vectors.len() == meta.count * meta.stride_bytes
}

/// The published rows of an index as read back from disk.
pub struct PublishedSnapshot {
    meta: Meta,
    ids: Vec<[u8; 16]>,
    vectors: Vec<u8>,
}

/// The first step of loading a snapshot from its metadata.
pub enum SnapshotLoad {
    /// The snapshot holds no rows; no other file is read.
    Ready(PublishedSnapshot),
    /// The id and row files must be read and handed to
    /// [`PublishedSnapshot::from_files`] with this metadata.
    NeedsFiles(Meta),
}

impl PublishedSnapshot {
    pub closed spec fn spec_meta(&self) -> Meta {
        self.meta
    }

    pub closed spec fn spec_ids(&self) -> Seq<[u8; 16]> {
        self.ids@
    }

    pub closed spec fn spec_vectors(&self) -> Seq<u8> {
        self.vectors@
    }

    /// The snapshot's parts fit together.
    pub open spec fn wf(&self) -> bool {
        snapshot_shape_ok(self.spec_meta(), self.spec_ids(), self.spec_vectors())
    }

    /// Checks the metadata read from `meta.json`; an empty snapshot needs
    /// nothing more.
    pub fn from_meta(meta: Meta) -> (r: Result<SnapshotLoad, Error>)
        ensures
            r is Ok <==> meta_supported(meta),
            r matches Err(e) ==> meta.validate_error(e),
            r matches Ok(SnapshotLoad::Ready(s)) ==> meta.count == 0 && s.wf() && s.spec_meta()
                == meta && s.spec_ids().len() == 0 && s.spec_vectors().len() == 0,
            r matches Ok(SnapshotLoad::NeedsFiles(m)) ==> meta.count > 0 && m == meta,
    {
        meta.validate()?;
        if meta.count == 0 {
            let s = PublishedSnapshot { meta, ids: Vec::new(), vectors: Vec::new() };
            proof {
                vstd::arithmetic::mul::lemma_mul_basics(s.meta.stride_bytes as int);
            }
            Ok(SnapshotLoad::Ready(s))
        } else {
            Ok(SnapshotLoad::NeedsFiles(meta))
        }
    }

    /// Builds the snapshot from the contents of `ids.bin` and `vectors.bin`,
    /// rejecting files whose sizes do not match the metadata.
    pub fn from_files(meta: Meta, ids_bytes: &[u8], vectors: Vec<u8>) -> (r: Result<
        PublishedSnapshot,
        Error,
    >)
        requires
            meta_supported(meta),
            meta.count > 0,
            meta.count * ID_WIDTH <= usize::MAX,
            meta.count * meta.stride_bytes <= usize::MAX,
        ensures
            r is Ok <==> ids_bytes@.len() == meta.count * ID_WIDTH && vectors@.len() == meta.count
                * meta.stride_bytes,
            ids_bytes@.len() != meta.count * ID_WIDTH ==> (r matches Err(Error::InvalidArgument(msg))
                && msg@ == "ids.bin size mismatch: "@ + decimal(ids_bytes@.len()) + " vs "@
                + decimal((meta.count * ID_WIDTH) as nat)),
            ids_bytes@.len() == meta.count * ID_WIDTH && vectors@.len() != meta.count
                * meta.stride_bytes ==> (r matches Err(Error::InvalidArgument(msg)) && msg@
                == "vectors.bin size mismatch: "@ + decimal(vectors@.len()) + " vs "@ + decimal(
                (meta.count * meta.stride_bytes) as nat,
            )),
            r matches Ok(s) ==> s.wf() && s.spec_meta() == meta && ids_layout(
                s.spec_ids(),
                ids_bytes@,
            ) && s.spec_vectors() == vectors@,
    {
        let expected_ids = meta.count * ID_WIDTH;
        let expected_vectors = meta.count * meta.stride_bytes;
        if ids_bytes.len() != expected_ids {
            let head = message_with_number(
                "ids.bin size mismatch: ",
                ids_bytes.len() as u128,
                " vs ",
            );
            let tail = decimal_string(expected_ids as u128);
            return Err(Error::InvalidArgument(head.concat(tail.as_str())));
        }
        if vectors.len() != expected_vectors {
            let head = message_with_number(
                "vectors.bin size mismatch: ",
                vectors.len() as u128,
                " vs ",
            );
            let tail = decimal_string(expected_vectors as u128);
            return Err(Error::InvalidArgument(head.concat(tail.as_str())));
        }
        let ids = ids_from_bytes(ids_bytes);
        Ok(PublishedSnapshot { meta, ids, vectors })
    }

    /// The snapshot's metadata.
    pub fn meta(&self) -> (m: &Meta)
        ensures
            *m == self.spec_meta(),
    {
        &self.meta
    }

    /// The published ids, in row order.
    pub fn ids(&self) -> (ids: &[[u8; 16]])
        ensures
            ids@ == self.spec_ids(),
    {
        self.ids.as_slice()
    }

    /// The published packed rows, row-major.
    pub fn vectors(&self) -> (v: &[u8])
        ensures
            v@ == self.spec_vectors(),
    {
        self.vectors.as_slice()
    }
}

} // verus!
