//! Sizing and sequencing of a block-blob upload: how large the blocks are,
//! how many are sent at once, what each block is called, and what to do
//! when a request fails.

use crate::text::{find_char, index_of, texts};
use crate::ONE_MB;
use vstd::prelude::*;
use vstd::string::{StrSliceExecFns, StringExecFns};

verus! {

/// Largest number of blocks that one blob may have.
pub const BLOB_MAX_BLOCKS: u64 = 50_000;

/// Largest size of one block: 4000 mebibytes.
pub const BLOB_MAX_BLOCK_SIZE: u64 = 4_194_304_000;

/// Largest size of a file that fits in one blob: the largest number of
/// blocks of the largest size.
pub const BLOB_MAX_FILE_SIZE: u64 = 209_715_200_000_000;

/// Smallest size of a block for which the store gives its high throughput:
/// 5 mebibytes.
pub const BLOB_MIN_BLOCK_SIZE: u64 = 5_242_880;

/// Largest number of blocks that are sent at once. With ten senders per
/// host, a thousand hosts stay under the request rate of one storage
/// account.
pub const MAX_CONCURRENCY: usize = 10;

/// The number of senders where the caller names none.
pub const DEFAULT_CONCURRENCY: usize = 10;

/// Size of a block for files too large for the smallest blocks: 100
/// mebibytes. A block stays in memory until it is sent, so it is kept
/// moderate.
pub const REASONABLE_BLOCK_SIZE: u64 = 104_857_600;

/// The number of bytes that may be in flight at once: 500 mebibytes.
pub const MEMORY_THRESHOLD: u64 = 524_288_000;

/// The size that is planned for where the size of the upload is not known:
/// one tebibyte.
pub const DEFAULT_FILE_SIZE: u64 = 1_099_511_627_776;

/// Why an upload to a block blob failed.
#[derive(Debug, PartialEq, Eq)]
pub enum Error {
    /// The file is larger than a blob can be.
    TooLarge,
    /// A block could not be handed to the senders.
    QueueSend,
    /// A sender ended without a result.
    TaskJoin,
    /// The file could not be read.
    Io(String),
    /// The store refused a request for good.
    RemoteApi(String),
    /// A size does not fit the machine's word.
    SizeConversion,
    /// The address of the blob lacks a part.
    InvalidSasUrl(SasFault),
}

/// The part that the address of a blob lacks.
#[derive(Debug, Clone, Copy, PartialEq, Eq, Structural)]
pub enum SasFault {
    /// It names no host, so no account.
    NoAccount,
    /// It has no query, so no token.
    NoToken,
    /// Its path names no container.
    NoContainer,
    /// Its path names no blob in the container.
    NoBlob,
}

impl SasFault {
    /// The fault in words.
    pub open spec fn text(&self) -> Seq<char> {
        match self {
            SasFault::NoAccount => "invalid sas token (no account)"@,
            SasFault::NoToken => "invalid sas token (no token)"@,
            SasFault::NoContainer => "invalid sas token (no container)"@,
            SasFault::NoBlob => "invalid sas token (no blob)"@,
        }
    }

    /// The fault in words.
    pub fn describe(&self) -> (text: &'static str)
        ensures
            text@ == self.text(),
    {
        match self {
            SasFault::NoAccount => "invalid sas token (no account)",
            SasFault::NoToken => "invalid sas token (no token)",
            SasFault::NoContainer => "invalid sas token (no container)",
            SasFault::NoBlob => "invalid sas token (no blob)",
        }
    }
}

impl Error {
    /// What the failure says of itself.
    pub open spec fn message_text(&self) -> Seq<char> {
        match self {
            Error::TooLarge => "file is too large"@,
            Error::QueueSend => "unable to queue block for upload"@,
            Error::TaskJoin => "uploading blocks failed"@,
            Error::Io(_) => "error reading file"@,
            Error::RemoteApi(_) => "error uploading file"@,
            Error::SizeConversion => "size conversion error"@,
            Error::InvalidSasUrl(fault) => fault.text(),
        }
    }

    /// What the failure says of itself.
    pub fn message(&self) -> (text: String)
        ensures
            text@ == self.message_text(),
    {
        match self {
            Error::TooLarge => String::from_str("file is too large"),
            Error::QueueSend => String::from_str("unable to queue block for upload"),
            Error::TaskJoin => String::from_str("uploading blocks failed"),
            Error::Io(_) => String::from_str("error reading file"),
            Error::RemoteApi(_) => String::from_str("error uploading file"),
            Error::SizeConversion => String::from_str("size conversion error"),
            Error::InvalidSasUrl(fault) => String::from_str(fault.describe()),
        }
    }

    /// The failure's message and, after it, that of its cause.
    pub open spec fn chain_texts(&self) -> Seq<Seq<char>> {
        match self {
            Error::Io(cause) => seq![self.message_text(), cause@],
            Error::RemoteApi(cause) => seq![self.message_text(), cause@],
            _ => seq![self.message_text()],
        }
    }

    /// The failure's message and, after it, that of its cause.
    pub fn chain(&self) -> (messages: Vec<String>)
        ensures
            texts(messages@) == self.chain_texts(),
    {
        let mut messages: Vec<String> = Vec::new();
        messages.push(self.message());
        match self {
            Error::Io(cause) => {
                messages.push(cause.clone());
            },
            Error::RemoteApi(cause) => {
                messages.push(cause.clone());
            },
            _ => {},
        }
        assert(texts(messages@) =~= self.chain_texts());
        messages
    }
}

/// The number of blocks of `block_size` bytes that `file_size` bytes take.
pub open spec fn blocks_needed(file_size: u64, block_size: u64) -> int {
    (file_size + block_size - 1) / (block_size as int)
}

/// The size of the blocks for a file of `file_size` bytes.
///
/// Without a hint, or with a hint of 0: the smallest block size where the
/// file then fits in the largest number of blocks; else the reasonable size
/// where it fits then; else the smallest size with which it fits. With a
/// hint: the hint, but not less than the smallest block size. In any case not
/// more than the largest block size.
pub open spec fn chosen_block_size(file_size: u64, hint: Option<u64>) -> u64 {
    let wanted: int = match hint {
        Some(size) if size != 0 => if size <= BLOB_MIN_BLOCK_SIZE {
            BLOB_MIN_BLOCK_SIZE as int
        } else {
            size as int
        },
        _ => if file_size < BLOB_MIN_BLOCK_SIZE * BLOB_MAX_BLOCKS {
            BLOB_MIN_BLOCK_SIZE as int
        } else if file_size < REASONABLE_BLOCK_SIZE * BLOB_MAX_BLOCKS {
            REASONABLE_BLOCK_SIZE as int
        } else {
            (file_size + BLOB_MAX_BLOCKS - 1) / (BLOB_MAX_BLOCKS as int)
        },
    };
    if wanted > BLOB_MAX_BLOCK_SIZE {
        BLOB_MAX_BLOCK_SIZE
    } else {
        wanted as u64
    }
}

/// The number of blocks that are sent at once: one where the caller asks
/// for none or one; else as many as fit the memory threshold, at least one
/// and at most ten.
pub open spec fn chosen_concurrency(block_size: u64, hint: usize) -> usize {
    if hint <= 1 || block_size == 0 {
        1
    } else {
        let fit = MEMORY_THRESHOLD / block_size;
        if fit == 0 {
            1
        } else if fit < MAX_CONCURRENCY {
            fit as usize
        } else {
            MAX_CONCURRENCY
        }
    }
}

/// Chooses the size of the blocks and the number of senders for a file of
/// `file_size` bytes.
pub fn calc_concurrency(file_size: u64, block_size: Option<u64>, upload_concurrency: usize) -> (r:
    Result<(u64, usize), Error>)
    ensures
        match r {
            Ok((size, senders)) => {
                &&& file_size <= BLOB_MAX_FILE_SIZE
                &&& size == chosen_block_size(file_size, block_size)
                &&& senders == chosen_concurrency(size, upload_concurrency)
                &&& BLOB_MIN_BLOCK_SIZE <= size <= BLOB_MAX_BLOCK_SIZE
                &&& 1 <= senders <= MAX_CONCURRENCY
                &&& (block_size is None || block_size == Some(0u64)) ==> blocks_needed(
                    file_size,
                    size,
                ) <= BLOB_MAX_BLOCKS
            },
            Err(e) => file_size > BLOB_MAX_FILE_SIZE && e == Error::TooLarge,
        },
{
    if file_size > BLOB_MAX_FILE_SIZE {
        return Err(Error::TooLarge);
    }
    let wanted: u64 = match block_size {
        Some(size) if size != 0 => if size <= BLOB_MIN_BLOCK_SIZE {
            BLOB_MIN_BLOCK_SIZE
        } else {
            size
        },
        _ => if file_size < BLOB_MIN_BLOCK_SIZE * BLOB_MAX_BLOCKS {
            BLOB_MIN_BLOCK_SIZE
        } else if file_size < REASONABLE_BLOCK_SIZE * BLOB_MAX_BLOCKS {
            REASONABLE_BLOCK_SIZE
        } else {
            (file_size + (BLOB_MAX_BLOCKS - 1)) / BLOB_MAX_BLOCKS
        },
    };
    let size = if wanted > BLOB_MAX_BLOCK_SIZE {
        BLOB_MAX_BLOCK_SIZE
    } else {
        wanted
    };
    let senders: usize = if upload_concurrency <= 1 {
        1
    } else {
        let fit = MEMORY_THRESHOLD / size;
        if fit == 0 {
            1
        } else if fit < MAX_CONCURRENCY as u64 {
            fit as usize
        } else {
            MAX_CONCURRENCY
        }
    };
    proof {
        if block_size is None || block_size == Some(0u64) {
            lemma_blocks_fit(file_size);
        }
    }
    Ok((size, senders))
}

/// A file that fits in a blob fits in the largest number of blocks of the
/// size that is chosen for it without a hint.
pub proof fn lemma_blocks_fit(file_size: u64)
    requires
        file_size <= BLOB_MAX_FILE_SIZE,
    ensures
        blocks_needed(file_size, chosen_block_size(file_size, None)) <= BLOB_MAX_BLOCKS,
        chosen_block_size(file_size, Some(0u64)) == chosen_block_size(file_size, None),
{
    let size = chosen_block_size(file_size, None) as int;
    let n = file_size as int;
    assert(n <= size * 50_000) by (nonlinear_arith)
        requires
            0 <= n <= 50_000 * 4_194_304_000,
            size == if n < 5_242_880 * 50_000 {
                5_242_880
            } else if n < 104_857_600 * 50_000 {
                104_857_600
            } else if (n + 49_999) / 50_000 > 4_194_304_000 {
                4_194_304_000
            } else {
                (n + 49_999) / 50_000
            },
    ;
    assert((n + size - 1) / size <= 50_000) by (nonlinear_arith)
        requires
            n <= size * 50_000,
            size > 0,
            n >= 0,
    ;
}

/// With or without a hint, the blocks are neither smaller nor larger than
/// the store takes, between one and ten of them are sent at once, and the
/// file takes at most the largest number of blocks exactly when it is not
/// larger than that many blocks of the chosen size.
pub proof fn lemma_calc_concurrency(file_size: u64, hint: Option<u64>, concurrency: usize)
    requires
        file_size <= BLOB_MAX_FILE_SIZE,
    ensures
        BLOB_MIN_BLOCK_SIZE <= chosen_block_size(file_size, hint) <= BLOB_MAX_BLOCK_SIZE,
        1 <= chosen_concurrency(chosen_block_size(file_size, hint), concurrency)
            <= MAX_CONCURRENCY,
        (blocks_needed(file_size, chosen_block_size(file_size, hint)) <= BLOB_MAX_BLOCKS) == (
        file_size <= chosen_block_size(file_size, hint) * BLOB_MAX_BLOCKS),
        (hint is None || hint == Some(0u64)) ==> blocks_needed(
            file_size,
            chosen_block_size(file_size, hint),
        ) <= BLOB_MAX_BLOCKS,
{
    let size = chosen_block_size(file_size, hint) as int;
    let n = file_size as int;
    if hint is None || hint == Some(0u64) {
        lemma_blocks_fit(file_size);
    }
    assert(((n + size - 1) / size <= 50_000) == (n <= size * 50_000)) by (nonlinear_arith)
        requires
            size > 0,
            n >= 0,
    ;
}

/// The lower-case hexadecimal digit for `d`.
pub open spec fn lower_hex(d: nat) -> u8 {
    if d < 10 {
        (48 + d) as u8
    } else {
        (87 + d) as u8
    }
}

/// The last `width` hexadecimal digits of `value`, in lower case, the most
/// significant first.
pub open spec fn hex_text(value: nat, width: nat) -> Seq<u8>
    decreases width,
{
    if width == 0 {
        Seq::empty()
    } else {
        hex_text(value / 16, (width - 1) as nat).push(lower_hex(value % 16))
    }
}

/// Appends the last `width` hexadecimal digits of `value` to `out`.
fn push_hex(value: u64, width: usize, out: &mut Vec<u8>)
    ensures
        final(out)@ == old(out)@ + hex_text(value as nat, width as nat),
    decreases width,
{
    if width > 0 {
        push_hex(value / 16, width - 1, out);
        let d = (value % 16) as u8;
        let c = if d < 10 {
            48 + d
        } else {
            87 + d
        };
        out.push(c);
        assert(out@ =~= old(out)@ + hex_text(value as nat, width as nat));
    } else {
        assert(out@ =~= old(out)@ + hex_text(value as nat, width as nat));
    }
}

/// The name of block number `index`: the number in 32 hexadecimal digits.
pub open spec fn block_name(index: u64) -> Seq<u8> {
    hex_text(index as nat, 32)
}

/// The name under which block number `index` is sent and later listed.
pub fn block_id(index: u64) -> (id: Vec<u8>)
    ensures
        id@ == block_name(index),
        id@.len() == 32,
{
    let mut id: Vec<u8> = Vec::new();
    push_hex(index, 32, &mut id);
    proof {
        lemma_hex_text_len(index as nat, 32);
        assert(id@ =~= block_name(index));
    }
    id
}

/// A number is written in as many digits as asked for.
pub proof fn lemma_hex_text_len(value: nat, width: nat)
    ensures
        hex_text(value, width).len() == width,
    decreases width,
{
    if width > 0 {
        lemma_hex_text_len(value / 16, (width - 1) as nat);
    }
}

/// Blocks with different numbers have different names.
pub proof fn lemma_block_names_differ(a: u64, b: u64)
    requires
        block_name(a) == block_name(b),
    ensures
        a == b,
{
    assert(pow16(16) == 0x1_0000_0000_0000_0000) by {
        reveal_with_fuel(pow16, 17);
    }
    lemma_hex_digits_name(a as nat, b as nat, 16, 32);
}

/// Numbers below 16 to the power `digits` whose last `width` digits agree,
/// `width` being no less than `digits`, are the same.
proof fn lemma_hex_digits_name(a: nat, b: nat, digits: nat, width: nat)
    requires
        width >= digits,
        hex_text(a, width) == hex_text(b, width),
        a < pow16(digits),
        b < pow16(digits),
    ensures
        a == b,
    decreases digits,
{
    if digits == 0 {
    } else {
        let ha = hex_text(a / 16, (width - 1) as nat);
        let hb = hex_text(b / 16, (width - 1) as nat);
        assert(ha.push(lower_hex(a % 16)).last() == lower_hex(a % 16));
        assert(hb.push(lower_hex(b % 16)).last() == lower_hex(b % 16));
        assert(ha.push(lower_hex(a % 16)).drop_last() =~= ha);
        assert(hb.push(lower_hex(b % 16)).drop_last() =~= hb);
        assert(a / 16 < pow16((digits - 1) as nat) && b / 16 < pow16((digits - 1) as nat))
            by (nonlinear_arith)
            requires
                a < 16 * pow16((digits - 1) as nat),
                b < 16 * pow16((digits - 1) as nat),
        ;
        lemma_hex_digits_name(a / 16, b / 16, (digits - 1) as nat, (width - 1) as nat);
        assert(a == 16 * (a / 16) + a % 16 && b == 16 * (b / 16) + b % 16) by (nonlinear_arith);
    }
}

/// 16 to the power `n`.
pub open spec fn pow16(n: nat) -> nat
    decreases n,
{
    if n == 0 {
        1
    } else {
        16 * pow16((n - 1) as nat)
    }
}

/// The number of blocks that wait between the reader of the file and the
/// senders. With it, no more blocks are in memory than senders and one.
pub const QUEUE_CAPACITY: usize = 1;

/// A block of the file with the name under which it is sent.
#[derive(Debug, PartialEq, Eq)]
pub struct UploadBlock {
    pub id: Vec<u8>,
    pub data: Vec<u8>,
}

/// The names of the first `count` blocks, in their order.
pub open spec fn block_names(count: nat) -> Seq<Seq<u8>> {
    Seq::new(count, |i: int| block_name(i as u64))
}

/// Reads the file block by block and names the blocks.
#[derive(Debug, Clone, Copy, PartialEq, Eq, Structural)]
pub struct BlockReader {
    /// The number of blocks read so far.
    pub next: u64,
}

/// The views of the names.
pub open spec fn names(list: Seq<Vec<u8>>) -> Seq<Seq<u8>> {
    list.map_values(|id: Vec<u8>| id@)
}

impl BlockReader {
    /// A reader that has read no block.
    pub fn new() -> (reader: Self)
        ensures
            reader.next == 0,
    {
        BlockReader { next: 0 }
    }

    /// Takes what was read from the file for the next block. An empty read
    /// is the end of the file: there is no block, and the queue is to be
    /// closed. Else the bytes become the next block, under the next name.
    pub fn on_read(&mut self, data: Vec<u8>) -> (block: Option<UploadBlock>)
        ensures
            match block {
                Some(b) => {
                    &&& data@.len() > 0
                    &&& old(self).next < u64::MAX
                    &&& b.data@ == data@
                    &&& b.id@ == block_name(old(self).next)
                    &&& final(self).next == old(self).next + 1
                },
                None => {
                    &&& data@.len() == 0 || old(self).next == u64::MAX
                    &&& *final(self) == *old(self)
                },
            },
    {
        if data.len() == 0 || self.next == u64::MAX {
            return None;
        }
        let id = block_id(self.next);
        self.next = self.next + 1;
        Some(UploadBlock { id, data })
    }

    /// The names of all blocks that were read, in the order in which they
    /// make up the blob.
    pub fn finish(self) -> (list: Vec<Vec<u8>>)
        ensures
            names(list@) == block_names(self.next as nat),
    {
        let mut list: Vec<Vec<u8>> = Vec::new();
        let mut i: u64 = 0;
        assert(names(list@) =~= block_names(0));
        while i < self.next
            invariant
                i <= self.next,
                names(list@) == block_names(i as nat),
            decreases self.next - i,
        {
            let ghost before = list@;
            list.push(block_id(i));
            proof {
                let now = names(list@);
                let want = block_names((i + 1) as nat);
                assert(names(before).len() == before.len());
                assert(now.len() == want.len());
                assert forall|k: int| 0 <= k < want.len() implies now[k] == want[k] by {
                    if k < before.len() {
                        assert(now[k] == names(before)[k]);
                        assert(block_names(i as nat)[k] == block_name(k as u64));
                    }
                }
                assert(now =~= want);
            }
            i += 1;
        }
        list
    }
}

/// The MD5 digest of `data`, as `md5::compute` yields it.
pub uninterp spec fn md5_digest(data: Seq<u8>) -> Seq<u8>;

/// Calls `md5::compute` and copies the sixteen bytes of the digest.
#[verifier::external_body]
pub(crate) fn md5_compute(data: &[u8]) -> (digest: Vec<u8>)
    ensures
        digest@ == md5_digest(data@),
{
    md5::compute(data).0.to_vec()
}

/// A request to the store to take a block.
#[derive(Debug, PartialEq, Eq)]
pub struct PutBlock {
    pub id: Vec<u8>,
    pub data: Vec<u8>,
    pub hash: Vec<u8>,
}

impl UploadBlock {
    /// The request that sends this block: its name, its bytes and the MD5
    /// digest of its bytes.
    pub fn request(self) -> (put: PutBlock)
        ensures
            put.id@ == self.id@,
            put.data@ == self.data@,
            put.hash@ == md5_digest(self.data@),
    {
        let hash = md5_compute(self.data.as_slice());
        PutBlock { id: self.id, data: self.data, hash }
    }
}

/// How a request failed.
#[derive(Debug, Clone, Copy, PartialEq, Eq, Structural)]
pub enum Failure {
    /// No answer came.
    Connection,
    /// The store answered with this status.
    Status(u16),
}

/// Whether a failure may pass: no answer, a redirection, a failure of the
/// server, or the answer that too many requests were sent.
pub open spec fn transient(failure: Failure) -> bool {
    match failure {
        Failure::Connection => true,
        Failure::Status(code) => (300 <= code < 400) || (500 <= code < 600) || code == 429,
    }
}

/// Whether a request that failed this way is to be sent again.
pub fn is_transient(failure: &Failure) -> (retry: bool)
    ensures
        retry == transient(*failure),
{
    match failure {
        Failure::Connection => true,
        Failure::Status(code) => (300 <= *code && *code < 400) || (500 <= *code && *code < 600)
            || *code == 429,
    }
}

/// What a sender does with the outcome of a request.
#[derive(Debug, PartialEq, Eq)]
pub enum Verdict {
    /// The block is stored: its bytes count as sent.
    Sent(usize),
    /// The request is to be sent again, after a pause.
    Retry,
    /// The upload is over: the queue is to be closed, and the failure
    /// reported.
    Abort(Error),
}

/// Decides what follows the outcome of the request for a block of `len`
/// bytes. `detail` is what the store said, for the report.
pub fn after_request(outcome: Result<(), Failure>, len: usize, detail: String) -> (verdict:
    Verdict)
    ensures
        match outcome {
            Ok(()) => verdict == Verdict::Sent(len),
            Err(failure) => if transient(failure) {
                verdict == Verdict::Retry
            } else {
                verdict == Verdict::Abort(Error::RemoteApi(detail))
            },
        },
{
    match outcome {
        Ok(()) => Verdict::Sent(len),
        Err(failure) => if is_transient(&failure) {
            Verdict::Retry
        } else {
            Verdict::Abort(Error::RemoteApi(detail))
        },
    }
}

/// What an upload is told by its caller.
#[derive(Debug, Clone, Copy, PartialEq, Eq, Structural)]
pub struct BlobUploader {
    pub size: u64,
    pub block_size: Option<u64>,
    pub concurrency: usize,
}

/// `megabytes` in bytes, held at the largest number of 64 bits.
pub open spec fn megabytes(megabytes: u64) -> u64 {
    if megabytes * ONE_MB > u64::MAX {
        u64::MAX
    } else {
        (megabytes * ONE_MB) as u64
    }
}

impl BlobUploader {
    /// An upload of unknown size, with blocks of a size that is chosen by
    /// the size of the file, and ten senders.
    pub fn new() -> (uploader: Self)
        ensures
            uploader == (BlobUploader {
                size: DEFAULT_FILE_SIZE,
                block_size: None,
                concurrency: DEFAULT_CONCURRENCY,
            }),
    {
        BlobUploader { size: DEFAULT_FILE_SIZE, block_size: None, concurrency: DEFAULT_CONCURRENCY }
    }

    /// Sets the size of the file.
    pub fn size(self, size: u64) -> (uploader: Self)
        ensures
            uploader == (BlobUploader { size, ..self }),
    {
        BlobUploader { size, ..self }
    }

    /// Sets the size of the blocks, in megabytes.
    pub fn block_size(self, block_size: Option<u64>) -> (uploader: Self)
        ensures
            uploader == (BlobUploader { block_size, ..self }),
    {
        BlobUploader { block_size, ..self }
    }

    /// Sets the number of senders.
    pub fn concurrency(self, concurrency: usize) -> (uploader: Self)
        ensures
            uploader == (BlobUploader { concurrency, ..self }),
    {
        BlobUploader { concurrency, ..self }
    }

    /// The size of the blocks in bytes and the number of senders for this
    /// upload.
    pub fn plan(&self) -> (r: Result<(u64, usize), Error>)
        ensures
            match r {
                Ok((size, senders)) => {
                    &&& self.size <= BLOB_MAX_FILE_SIZE
                    &&& size == chosen_block_size(
                        self.size,
                        match self.block_size {
                            Some(mb) => Some(megabytes(mb)),
                            None => None,
                        },
                    )
                    &&& senders == chosen_concurrency(size, self.concurrency)
                },
                Err(e) => self.size > BLOB_MAX_FILE_SIZE && e == Error::TooLarge,
            },
    {
        let hint = match self.block_size {
            Some(mb) => Some(
                match mb.checked_mul(ONE_MB) {
                    Some(bytes) => bytes,
                    None => u64::MAX,
                },
            ),
            None => None,
        };
        calc_concurrency(self.size, hint, self.concurrency)
    }
}

/// The parts of an address that say where a blob is and who may write it.
#[derive(Debug, PartialEq, Eq)]
pub struct UrlParts {
    pub host: Option<String>,
    pub path: String,
    pub query: Option<String>,
}

/// Where a blob is, and the token that allows writing it.
#[derive(Debug, PartialEq, Eq)]
pub struct SasToken {
    pub account: String,
    pub container: String,
    pub path: String,
    pub token: String,
}

/// A path without the one slash that may end it.
pub open spec fn without_last_slash(path: Seq<char>) -> Seq<char> {
    if path.len() > 0 && path.last() == '/' {
        path.drop_last()
    } else {
        path
    }
}

/// What follows the first slash of the path: the container, a slash, and
/// the name of the blob.
pub open spec fn after_first_slash(path: Seq<char>) -> Seq<char> {
    without_last_slash(path).skip(index_of(without_last_slash(path), '/') as int + 1)
}

/// What is wrong with the parts of an address, if anything. The host is
/// looked at first, then the query, then the path.
pub open spec fn sas_fault(host: Option<Seq<char>>, path: Seq<char>, query: Option<Seq<char>>)
    -> Option<SasFault> {
    let trimmed = without_last_slash(path);
    let rest = after_first_slash(path);
    let slash = index_of(rest, '/');
    if host is None || host.unwrap().len() == 0 {
        Some(SasFault::NoAccount)
    } else if query is None {
        Some(SasFault::NoToken)
    } else if index_of(trimmed, '/') >= trimmed.len() || slash == 0 {
        Some(SasFault::NoContainer)
    } else if slash + 1 >= rest.len() {
        Some(SasFault::NoBlob)
    } else {
        None
    }
}

/// The characters of a text that may be missing.
pub open spec fn text_of(text: Option<String>) -> Option<Seq<char>> {
    match text {
        Some(t) => Some(t@),
        None => None,
    }
}

impl SasToken {
    /// Reads account, container, blob and token from the parts of an
    /// address: the account is the first label of the host, the container
    /// the first segment of the path, the blob the rest of the path, and the
    /// token the query.
    pub fn try_from(url: &UrlParts) -> (r: Result<SasToken, Error>)
        ensures
            match r {
                Ok(sas) => {
                    let host = url.host.unwrap()@;
                    let rest = after_first_slash(url.path@);
                    &&& sas_fault(text_of(url.host), url.path@, text_of(url.query)) is None
                    &&& sas.account@ == host.take(index_of(host, '.') as int)
                    &&& sas.token@ == url.query.unwrap()@
                    &&& sas.container@ == rest.take(index_of(rest, '/') as int)
                    &&& sas.path@ == rest.skip(index_of(rest, '/') as int + 1)
                },
                Err(e) => e matches Error::InvalidSasUrl(fault) && sas_fault(
                    text_of(url.host),
                    url.path@,
                    text_of(url.query),
                ) == Some(fault),
            },
    {
        let host = match &url.host {
            Some(host) => host.as_str(),
            None => {
                return Err(Error::InvalidSasUrl(SasFault::NoAccount));
            },
        };
        let host_len = host.unicode_len();
        if host_len == 0 {
            return Err(Error::InvalidSasUrl(SasFault::NoAccount));
        }
        let dot = find_char(host, 0, '.');
        assert(host@.skip(0) =~= host@);
        let account = String::from_str(host.substring_char(0, dot));
        assert(account@ =~= host@.take(dot as int));
        let token = match &url.query {
            Some(query) => query.clone(),
            None => {
                return Err(Error::InvalidSasUrl(SasFault::NoToken));
            },
        };
        let path = url.path.as_str();
        let path_len = path.unicode_len();
        let trimmed = if path_len > 0 && path.get_char(path_len - 1) == '/' {
            path.substring_char(0, path_len - 1)
        } else {
            path
        };
        assert(trimmed@ =~= without_last_slash(path@));
        let trimmed_len = trimmed.unicode_len();
        let first = find_char(trimmed, 0, '/');
        assert(trimmed@.skip(0) =~= trimmed@);
        if first >= trimmed_len {
            return Err(Error::InvalidSasUrl(SasFault::NoContainer));
        }
        let rest = trimmed.substring_char(first + 1, trimmed_len);
        assert(rest@ =~= after_first_slash(path@));
        let rest_len = rest.unicode_len();
        let slash = find_char(rest, 0, '/');
        assert(rest@.skip(0) =~= rest@);
        if slash == 0 {
            return Err(Error::InvalidSasUrl(SasFault::NoContainer));
        }
        if slash >= rest_len || slash + 1 >= rest_len {
            return Err(Error::InvalidSasUrl(SasFault::NoBlob));
        }
        let container = String::from_str(rest.substring_char(0, slash));
        let blob = String::from_str(rest.substring_char(slash + 1, rest_len));
        assert(container@ =~= rest@.take(slash as int));
        assert(blob@ =~= rest@.skip(slash + 1));
        Ok(SasToken { account, container, path: blob, token })
    }
}

} // verus!
