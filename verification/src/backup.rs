//! One backup run: each block read from the file becomes a chunk, which is
//! either found in the repository (deduplicated) or stored anew, and is then
//! listed in the backup's recipe.
//!
//! The caller reads the blocks, checks which chunk files exist and writes the
//! files and the recipe; this module decides, step by step, what to do.

use vstd::prelude::*;
use crate::chunk::{BLOCK_SIZE, padded, pad_block};
use crate::compress::{COMPRESSION_LEVEL, zstd_frame, compress_chunk};
use crate::hash::{chunk_hash_name, compute_chunk_hash};
use crate::naming::{compressed_name, recipe_line, size_line, compressed_chunk_name, recipe_entry, size_entry};

verus! {

/// The most a single file may hold to be backed up on the free plan (300 MiB).
pub const FREE_MAX_FILE_SIZE: u64 = 300 * 1024 * 1024;

/// The most the repository may store on the free plan (1 GiB).
pub const FREE_MAX_REPO_SIZE: u64 = 1024 * 1024 * 1024;

/// The byte counters of a repository.
#[derive(Clone, Copy, Debug, PartialEq, Eq, Structural)]
pub struct RepoMetrics {
    /// Bytes of all files backed up, as read.
    pub logical_bytes: u64,
    /// Bytes written to the chunk store.
    pub stored_bytes: u64,
}

impl RepoMetrics {
    /// The counters of a new, empty repository.
    pub fn empty() -> (m: RepoMetrics)
        ensures
            m.logical_bytes == 0,
            m.stored_bytes == 0,
    {
        RepoMetrics { logical_bytes: 0, stored_bytes: 0 }
    }

    /// Bytes that deduplication saved: logical minus stored, or zero.
    pub fn saved_bytes(&self) -> (saved: u64)
        ensures
            saved == if self.logical_bytes >= self.stored_bytes {
                (self.logical_bytes - self.stored_bytes) as u64
            } else {
                0
            },
    {
        self.logical_bytes.saturating_sub(self.stored_bytes)
    }
}

/// Why a backup is refused before it starts.
#[derive(Clone, Copy, Debug, PartialEq, Eq, Structural)]
pub enum BackupRefusal {
    /// The file is over the free plan's size limit; `size_mb` is its size in whole MiB.
    FileTooLarge { size_mb: u64 },
    /// The repository already holds the free plan's maximum.
    StorageFull,
}

/// Decides whether a backup of a file of `file_len` bytes may start, given the
/// plan and the bytes the repository already stores.
pub fn check_backup_allowed(is_free: bool, file_len: u64, stored_bytes: u64) -> (r: Result<(), BackupRefusal>)
    ensures
        is_free && file_len > FREE_MAX_FILE_SIZE ==> r == Err::<(), BackupRefusal>(
            BackupRefusal::FileTooLarge { size_mb: file_len / 1048576u64 }),
        is_free && file_len <= FREE_MAX_FILE_SIZE && stored_bytes >= FREE_MAX_REPO_SIZE
            ==> r == Err::<(), BackupRefusal>(BackupRefusal::StorageFull),
        !(is_free && (file_len > FREE_MAX_FILE_SIZE || stored_bytes >= FREE_MAX_REPO_SIZE))
            ==> r == Ok::<(), BackupRefusal>(()),
{
    if is_free && file_len > FREE_MAX_FILE_SIZE {
        return Err(BackupRefusal::FileTooLarge { size_mb: file_len / (1024 * 1024) });
    }
    if is_free && stored_bytes >= FREE_MAX_REPO_SIZE {
        return Err(BackupRefusal::StorageFull);
    }
    Ok(())
}

/// The state of a backup run.
#[derive(Clone, Copy, Debug, PartialEq, Eq, Structural)]
pub struct BackupSession {
    /// Chunks are stored compressed.
    pub compress: bool,
    /// The repository is under the free plan's storage limit.
    pub is_free: bool,
    /// The repository's counters, updated as the run goes.
    pub metrics: RepoMetrics,
    /// Chunks stored by this run.
    pub new_chunks: u64,
    /// Chunks found already stored.
    pub dedup_chunks: u64,
    /// Bytes of the file that the recipe lists so far.
    pub listed_bytes: u64,
    /// The storage limit was reached: the run ends.
    pub stopped: bool,
}

/// A block made ready to be stored: its padded bytes, its length and its name.
pub struct PreparedChunk {
    /// The block filled up with zeros to `BLOCK_SIZE` bytes.
    pub data: Vec<u8>,
    /// The number of bytes of the file in the block.
    pub len: u64,
    /// The chunk's name, its hash in hexadecimal.
    pub hash: String,
}

/// What to do with a prepared chunk.
pub enum ChunkAction {
    /// The chunk is already stored; add the line to the recipe.
    Reuse { recipe_entry: String },
    /// Write `bytes` to the chunk file `file_name`, then add the line to the
    /// recipe if there is one; if there is none, this chunk brought the free
    /// plan's storage to its limit and the run ends without listing it.
    Store { file_name: String, bytes: Vec<u8>, next_entry: Option<String> },
    /// Storing the chunk would take the free plan past its storage limit:
    /// nothing is written and the run ends.
    LimitReached,
    /// The stored-bytes counter would overflow.
    CounterOverflow,
}

/// The effect of a step, on plain values.
pub enum StoreStep {
    Reuse { line: Seq<char> },
    Store { name: Seq<char>, bytes: Seq<u8>, line_after: Option<Seq<char>> },
    LimitReached,
}

impl ChunkAction {
    /// The step that a reuse, store or stop action carries out.
    pub open spec fn step(self) -> StoreStep {
        match self {
            ChunkAction::Reuse { recipe_entry } => StoreStep::Reuse { line: recipe_entry@ },
            ChunkAction::Store { file_name, bytes, next_entry } => StoreStep::Store {
                name: file_name@,
                bytes: bytes@,
                line_after: match next_entry {
                    Some(e) => Some(e@),
                    None => None,
                },
            },
            _ => StoreStep::LimitReached,
        }
    }
}

/// The bytes written for a new chunk: its data, or their zstd frame.
pub open spec fn stored_form(compress: bool, data: Seq<u8>) -> Seq<u8> {
    if compress {
        zstd_frame(data, COMPRESSION_LEVEL)
    } else {
        data
    }
}

/// The file a new chunk is written to: its name, with `.zst` when compressed.
pub open spec fn stored_file_name(compress: bool, hash: Seq<char>) -> Seq<char> {
    if compress {
        compressed_name(hash)
    } else {
        hash
    }
}

/// The session after a block of `len` bytes was read.
pub open spec fn after_read(s: BackupSession, len: nat) -> BackupSession {
    BackupSession {
        metrics: RepoMetrics {
            logical_bytes: (s.metrics.logical_bytes + len) as u64,
            stored_bytes: s.metrics.stored_bytes,
        },
        ..s
    }
}

/// One step of a backup: a chunk with bytes `data`, holding `len` bytes of the
/// file and named `hash`, found (`exists`) or not in the repository. On the
/// free plan, a new chunk that would take the storage past its limit is not
/// stored, and the run stops; a new chunk that brings the storage to the
/// limit exactly is stored, and the run stops without listing it.
pub open spec fn settle_spec(s: BackupSession, data: Seq<u8>, len: nat, hash: Seq<char>, exists: bool) -> (
    BackupSession,
    StoreStep,
) {
    if exists {
        (
            BackupSession {
                dedup_chunks: (s.dedup_chunks + 1) as u64,
                listed_bytes: (s.listed_bytes + len) as u64,
                ..s
            },
            StoreStep::Reuse { line: recipe_line(hash) },
        )
    } else {
        let bytes = stored_form(s.compress, data);
        let stored = s.metrics.stored_bytes + bytes.len();
        if s.is_free && stored > FREE_MAX_REPO_SIZE {
            (BackupSession { stopped: true, ..s }, StoreStep::LimitReached)
        } else {
            let full = s.is_free && stored >= FREE_MAX_REPO_SIZE;
            (
                BackupSession {
                    metrics: RepoMetrics {
                        logical_bytes: s.metrics.logical_bytes,
                        stored_bytes: stored as u64,
                    },
                    new_chunks: (s.new_chunks + 1) as u64,
                    listed_bytes: if full {
                        s.listed_bytes
                    } else {
                        (s.listed_bytes + len) as u64
                    },
                    stopped: full || s.stopped,
                    ..s
                },
                StoreStep::Store {
                    name: stored_file_name(s.compress, hash),
                    bytes,
                    line_after: if full {
                        None
                    } else {
                        Some(recipe_line(hash))
                    },
                },
            )
        }
    }
}

impl BackupSession {
    /// A run that starts from the repository's counters.
    pub fn new(compress: bool, is_free: bool, metrics: RepoMetrics) -> (s: BackupSession)
        ensures
            s.compress == compress,
            s.is_free == is_free,
            s.metrics == metrics,
            s.new_chunks == 0,
            s.dedup_chunks == 0,
            s.listed_bytes == 0,
            !s.stopped,
    {
        BackupSession {
            compress,
            is_free,
            metrics,
            new_chunks: 0,
            dedup_chunks: 0,
            listed_bytes: 0,
            stopped: false,
        }
    }

    /// Takes in a block of `block.len()` bytes read from the file: counts
    /// its bytes, pads it to a full chunk and names the chunk.
    pub fn prepare(&mut self, block: &[u8]) -> (chunk: PreparedChunk)
        requires
            0 < block@.len() <= BLOCK_SIZE,
            old(self).metrics.logical_bytes + block@.len() <= u64::MAX,
        ensures
            *final(self) == after_read(*old(self), block@.len()),
            chunk.data@ == padded(block@),
            chunk.len == block@.len(),
            chunk.hash@ == chunk_hash_name(padded(block@)),
    {
        self.metrics.logical_bytes = self.metrics.logical_bytes + block.len() as u64;
        let data = pad_block(block);
        let hash = compute_chunk_hash(data.as_slice());
        PreparedChunk { data, len: block.len() as u64, hash }
    }

    /// Decides what becomes of a prepared chunk, given whether a file of its
    /// name (plain or `.zst`) is already in the repository.
    pub fn settle(&mut self, chunk: &PreparedChunk, exists: bool) -> (action: ChunkAction)
        requires
            old(self).new_chunks < u64::MAX,
            old(self).dedup_chunks < u64::MAX,
            old(self).listed_bytes + chunk.len <= u64::MAX,
        ensures
            match action {
                ChunkAction::CounterOverflow => !exists && *final(self) == *old(self)
                    && old(self).metrics.stored_bytes + stored_form(old(self).compress, chunk.data@).len() > u64::MAX
                    && !(old(self).is_free && old(self).metrics.stored_bytes
                        + stored_form(old(self).compress, chunk.data@).len() > FREE_MAX_REPO_SIZE),
                _ => *final(self) == settle_spec(*old(self), chunk.data@, chunk.len as nat, chunk.hash@, exists).0
                    && action.step() == settle_spec(*old(self), chunk.data@, chunk.len as nat, chunk.hash@, exists).1,
            },
    {
        if exists {
            self.dedup_chunks = self.dedup_chunks + 1;
            self.listed_bytes = self.listed_bytes + chunk.len;
            return ChunkAction::Reuse { recipe_entry: recipe_entry(chunk.hash.as_str()) };
        }
        let bytes = if self.compress {
            compress_chunk(chunk.data.as_slice()).unwrap()
        } else {
            chunk.data.clone()
        };
        let over_limit = self.is_free && (bytes.len() as u64 > FREE_MAX_REPO_SIZE
            || self.metrics.stored_bytes > FREE_MAX_REPO_SIZE - bytes.len() as u64);
        if over_limit {
            self.stopped = true;
            return ChunkAction::LimitReached;
        }
        let stored = match self.metrics.stored_bytes.checked_add(bytes.len() as u64) {
            Some(v) => v,
            None => return ChunkAction::CounterOverflow,
        };
        let file_name = if self.compress {
            compressed_chunk_name(chunk.hash.as_str())
        } else {
            chunk.hash.clone()
        };
        self.metrics.stored_bytes = stored;
        self.new_chunks = self.new_chunks + 1;
        if self.is_free && stored >= FREE_MAX_REPO_SIZE {
            self.stopped = true;
            return ChunkAction::Store { file_name, bytes, next_entry: None };
        }
        self.listed_bytes = self.listed_bytes + chunk.len;
        ChunkAction::Store { file_name, bytes, next_entry: Some(recipe_entry(chunk.hash.as_str())) }
    }

    /// The last line of the run's recipe: the number of bytes of the file
    /// that the recipe lists, so that a restore writes exactly those bytes.
    pub fn recipe_trailer(&self) -> (line: String)
        ensures
            line@ == size_line(self.listed_bytes),
    {
        size_entry(self.listed_bytes)
    }
}

} // verus!
