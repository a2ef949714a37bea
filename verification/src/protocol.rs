//! The commit and reveal messages of a round, how the client builds them and how the
//! verifier checks them.

use vstd::prelude::*;
use vstd::string::{StringExecFns, StringSliceAdditionalSpecFns};
use vstd::utf8::encode_utf8;
use crate::hash::{blake3_digest, hex_string, to_hex, Blake3Hasher};
use crate::dumper::{read_views, region_views, snapshot_of, MemoryDumper};
use crate::leaves::{
    chunk_at,
    content_leaf_count,
    generate_leaves_from_file,
    generate_leaves_from_memory,
    is_power_of_two,
    leaves_of,
    lemma_next_power_of_two,
    StructuralError,
    CHUNK_SIZE,
};
use crate::merkle::{
    build_path,
    build_root,
    fold_path,
    includes,
    lemma_inclusion_is_sound,
    lemma_own_path_fits,
    lemma_path_reaches_root,
    merkle_path,
    merkle_root,
    path_collision,
    verify_inclusion,
    verify_path,
    PathStep,
};
use crate::region::RegionFilter;
use crate::utils::{hex_decoded, hex_to_bytes, lemma_marked_hex_round_trip, HexError};

verus! {

/// The number of leaf hashes in one batch of a commit message.
pub const PATH_LENGTH: usize = 64;

/// The seconds between two rounds.
pub const MEMORY_DUMP_INTERVAL_SECONDS: u64 = 5;

/// The offsets into the revealed block at which a round states the block's bytes.
pub const REVEAL_OFFSETS: [u8; 3] = [0x53, 0x54, 0x55];

/// The commitment to a snapshot: the root, and every leaf hash in order, in batches of
/// `PATH_LENGTH`. Root and leaves are written as `0x` and lowercase hexadecimal digits.
#[derive(Debug)]
pub struct CommitMessage {
    pub root: String,
    pub path: Vec<Vec<String>>,
}

/// The disclosure of one block: its bytes, its hash in lowercase hexadecimal digits,
/// three offsets into it and the bytes claimed to stand there.
#[derive(Debug)]
pub struct RevealMessage {
    pub hash: String,
    pub segment: Vec<u8>,
    pub indices: [u8; 3],
    pub values: [u8; 3],
}

/// Why the verifier turns a reveal down.
#[derive(Debug, Clone, Copy, PartialEq, Eq, Structural)]
pub enum ProtocolError {
    /// The segment does not hash to the hash that the message states.
    HashMismatch,
    /// An offset lies outside the segment, or the segment holds another byte there than
    /// the message states.
    ValueMismatch,
    /// The segment's hash is not bound by the commitment.
    NotCommitted,
}

/// `0x`, then the lowercase hexadecimal digits of `bytes`.
pub open spec fn prefixed_hex(bytes: Seq<u8>) -> Seq<char> {
    seq!['0', 'x'] + hex_string(bytes)
}

/// The text of every leaf, in order.
pub open spec fn leaf_texts(leaves: Seq<[u8; 32]>) -> Seq<Seq<char>> {
    Seq::new(leaves.len(), |i: int| prefixed_hex(leaves[i]@))
}

/// The number of batches that `count` items fill; the last one may be short.
pub open spec fn batch_count(count: nat) -> nat {
    if count % (PATH_LENGTH as nat) == 0 {
        count / (PATH_LENGTH as nat)
    } else {
        count / (PATH_LENGTH as nat) + 1
    }
}

/// The end of batch `b` among `count` items.
pub open spec fn batch_end(count: nat, b: int) -> int {
    if (b + 1) * PATH_LENGTH <= count {
        (b + 1) * PATH_LENGTH
    } else {
        count as int
    }
}

/// `texts` in batches of `PATH_LENGTH`, in order; only the last batch may be short.
pub open spec fn batches(texts: Seq<Seq<char>>) -> Seq<Seq<Seq<char>>> {
    Seq::new(
        batch_count(texts.len()),
        |b: int| texts.subrange(b * PATH_LENGTH, batch_end(texts.len(), b)),
    )
}

/// The texts of the batches of a commit message.
pub open spec fn path_texts(path: Seq<Vec<String>>) -> Seq<Seq<Seq<char>>> {
    Seq::new(path.len(), |b: int| Seq::new(path[b]@.len(), |i: int| path[b]@[i]@))
}

impl CommitMessage {
    /// The message commits to `leaves`: it states their root and lists them all.
    pub open spec fn commits_to(&self, leaves: Seq<[u8; 32]>) -> bool {
        &&& self.root@ == prefixed_hex(merkle_root(leaves)@)
        &&& path_texts(self.path@) == batches(leaf_texts(leaves))
    }
}

/// The text of a hash: `0x`, then its lowercase hexadecimal digits.
pub fn hash_text(hash: &[u8; 32]) -> (text: String)
    ensures
        text@ == prefixed_hex(hash@),
{
    proof {
        reveal_strlit("0x");
        assert("0x"@ =~= seq!['0', 'x']);
    }
    let digits = to_hex(hash.as_slice());
    let mut text = String::from_str("0x");
    text.append(digits.as_str());
    text
}

/// Builds the commit message for `leaves`.
///
/// Fails with `InvalidLeafCount` when there is no leaf or the count is not a power of
/// two: such a sequence never reaches the network.
pub fn build_commit(leaves: &Vec<[u8; 32]>) -> (result: Result<CommitMessage, StructuralError>)
    ensures
        result is Ok <==> is_power_of_two(leaves@.len()),
        result matches Err(e) ==> e == StructuralError::InvalidLeafCount,
        result matches Ok(message) ==> message.commits_to(leaves@),
{
    let root = match build_root(leaves) {
        Ok(root) => root,
        Err(e) => {
            return Err(e);
        },
    };
    let count = leaves.len();
    let ghost texts = leaf_texts(leaves@);
    let mut path: Vec<Vec<String>> = Vec::new();
    let mut batch: Vec<String> = Vec::new();
    let mut i: usize = 0;
    while i < count
        invariant
            i <= count,
            count == leaves@.len(),
            texts == leaf_texts(leaves@),
            path@.len() == i / PATH_LENGTH,
            batch@.len() == i % PATH_LENGTH,
            forall|b: int|
                0 <= b < path@.len() ==> Seq::new(
                    (#[trigger] path@[b])@.len(),
                    |k: int| path@[b]@[k]@,
                ) == texts.subrange(b * PATH_LENGTH, (b + 1) * PATH_LENGTH),
            forall|k: int|
                0 <= k < batch@.len() ==> (#[trigger] batch@[k])@ == texts[i - batch@.len() + k],
        decreases count - i,
    {
        batch.push(hash_text(&leaves[i]));
        i += 1;
        if batch.len() == PATH_LENGTH {
            let ghost full = Seq::new(batch@.len(), |k: int| batch@[k]@);
            assert(full =~= texts.subrange(i - PATH_LENGTH, i as int));
            let ghost earlier = path@;
            path.push(batch);
            batch = Vec::new();
            assert forall|b: int| 0 <= b < path@.len() implies Seq::new(
                (#[trigger] path@[b])@.len(),
                |k: int| path@[b]@[k]@,
            ) == texts.subrange(b * PATH_LENGTH, (b + 1) * PATH_LENGTH) by {
                if b < earlier.len() {
                    assert(path@[b] == earlier[b]);
                }
            }
        }
    }
    if batch.len() > 0 {
        let ghost short = Seq::new(batch@.len(), |k: int| batch@[k]@);
        assert(short =~= texts.subrange(count - batch@.len(), count as int));
        let ghost earlier = path@;
        path.push(batch);
        assert forall|b: int| 0 <= b < path@.len() implies Seq::new(
            (#[trigger] path@[b])@.len(),
            |k: int| path@[b]@[k]@,
        ) == texts.subrange(b * PATH_LENGTH, batch_end(texts.len(), b)) by {
            if b < earlier.len() {
                assert(path@[b] == earlier[b]);
            }
        }
    }
    assert(path_texts(path@) =~= batches(texts));
    Ok(CommitMessage { root: hash_text(&root), path })
}

/// The verdict on a reveal, on its own: the segment has to hash to the stated hash, and
/// at each stated offset the segment has to hold the stated byte.
pub open spec fn reveal_verdict(
    hash: Seq<char>,
    segment: Seq<u8>,
    indices: [u8; 3],
    values: [u8; 3],
) -> Result<(), ProtocolError> {
    if hash != hex_string(blake3_digest(segment)@) {
        Err(ProtocolError::HashMismatch)
    } else if forall|k: int|
        0 <= k < 3 ==> (#[trigger] indices[k]) < segment.len() && segment[indices[k] as int]
            == values[k] {
        Ok(())
    } else {
        Err(ProtocolError::ValueMismatch)
    }
}

impl RevealMessage {
    /// The verdict on this message, on its own.
    pub open spec fn verdict(&self) -> Result<(), ProtocolError> {
        reveal_verdict(self.hash@, self.segment@, self.indices, self.values)
    }
}

/// Builds the reveal of `segment` at the offsets `indices`: the message states the
/// segment's hash and the bytes that the segment holds at the offsets.
///
/// There is no such message when an offset lies outside the segment.
pub fn build_reveal(segment: &[u8], indices: [u8; 3]) -> (result: Option<RevealMessage>)
    ensures
        result is Some <==> forall|k: int| 0 <= k < 3 ==> (#[trigger] indices[k]) < segment@.len(),
        result matches Some(message) ==> {
            &&& message.hash@ == hex_string(blake3_digest(segment@)@)
            &&& message.segment@ == segment@
            &&& message.indices == indices
            &&& forall|k: int|
                0 <= k < 3 ==> (#[trigger] message.values[k]) == segment@[indices[k] as int]
            &&& message.verdict() is Ok
        },
{
    let len = segment.len();
    if indices[0] as usize >= len || indices[1] as usize >= len || indices[2] as usize >= len {
        return None;
    }
    let values: [u8; 3] = [
        segment[indices[0] as usize],
        segment[indices[1] as usize],
        segment[indices[2] as usize],
    ];
    let digest = Blake3Hasher::hash(segment);
    let hash = to_hex(digest.as_slice());
    let message = RevealMessage { hash, segment: vstd::slice::slice_to_vec(segment), indices, values };
    Some(message)
}

/// Checks a reveal on its own: the segment is hashed again and compared with the
/// stated hash, then each stated byte is compared with the segment.
pub fn verify_reveal(message: &RevealMessage) -> (result: Result<(), ProtocolError>)
    ensures
        result == message.verdict(),
{
    let digest = Blake3Hasher::hash(message.segment.as_slice());
    let expected = to_hex(digest.as_slice());
    if expected != message.hash {
        return Err(ProtocolError::HashMismatch);
    }
    let mut k: usize = 0;
    while k < 3
        invariant
            k <= 3,
            message.hash@ == hex_string(blake3_digest(message.segment@)@),
            forall|j: int|
                0 <= j < k ==> (#[trigger] message.indices[j]) < message.segment@.len()
                    && message.segment@[message.indices[j] as int] == message.values[j],
        decreases 3 - k,
    {
        let offset = message.indices[k] as usize;
        if offset >= message.segment.len() || message.segment[offset] != message.values[k] {
            assert(!(message.indices[k as int] < message.segment@.len()
                && message.segment@[message.indices[k as int] as int] == message.values[k as int]));
            return Err(ProtocolError::ValueMismatch);
        }
        k += 1;
    }
    Ok(())
}

/// Reveal acceptance: a message that states the segment's true hash and, at offsets
/// inside the segment, the bytes that the segment holds there, is accepted.
pub proof fn lemma_true_reveal_accepted(segment: Seq<u8>, indices: [u8; 3], values: [u8; 3])
    requires
        forall|k: int|
            0 <= k < 3 ==> (#[trigger] indices[k]) < segment.len() && values[k]
                == segment[indices[k] as int],
    ensures
        reveal_verdict(hex_string(blake3_digest(segment)@), segment, indices, values) is Ok,
{
}

/// Changing any stated value of an accepted message gets it rejected.
pub proof fn lemma_changed_value_rejected(
    hash: Seq<char>,
    segment: Seq<u8>,
    indices: [u8; 3],
    values: [u8; 3],
    changed: [u8; 3],
    k: int,
)
    requires
        reveal_verdict(hash, segment, indices, values) is Ok,
        0 <= k < 3,
        changed[k] != values[k],
    ensures
        reveal_verdict(hash, segment, indices, changed) == Err::<(), ProtocolError>(
            ProtocolError::ValueMismatch,
        ),
{
    assert(indices[k] < segment.len() && segment[indices[k] as int] == values[k]);
}

/// Changing the stated hash of an accepted message gets it rejected.
pub proof fn lemma_changed_hash_rejected(
    hash: Seq<char>,
    segment: Seq<u8>,
    indices: [u8; 3],
    values: [u8; 3],
    changed: Seq<char>,
)
    requires
        reveal_verdict(hash, segment, indices, values) is Ok,
        changed != hash,
    ensures
        reveal_verdict(changed, segment, indices, values) == Err::<(), ProtocolError>(
            ProtocolError::HashMismatch,
        ),
{
}

/// Whether the reveal's segment is leaf `index` of the `count` leaves under `root`, by
/// the inclusion path `path`: after the message's own verdict, the path has to prove
/// that the segment's hash is included there.
pub open spec fn path_verdict(
    message: RevealMessage,
    index: int,
    count: nat,
    path: Seq<PathStep>,
    root: [u8; 32],
) -> Result<(), ProtocolError> {
    match message.verdict() {
        Err(e) => Err(e),
        Ok(_) => if includes(blake3_digest(message.segment@), index, count, path, root) {
            Ok(())
        } else {
            Err(ProtocolError::NotCommitted)
        },
    }
}

/// Checks a reveal against a committed root, by an inclusion path for the segment's
/// hash at leaf `index` of `count` leaves.
pub fn verify_reveal_with_path(
    message: &RevealMessage,
    index: usize,
    count: usize,
    path: &Vec<PathStep>,
    root: &[u8; 32],
) -> (result: Result<(), ProtocolError>)
    ensures
        result == path_verdict(*message, index as int, count as nat, path@, *root),
{
    match verify_reveal(message) {
        Err(e) => Err(e),
        Ok(_) => {
            let leaf = Blake3Hasher::hash(message.segment.as_slice());
            if verify_inclusion(&leaf, index, count, path, root) {
                Ok(())
            } else {
                Err(ProtocolError::NotCommitted)
            }
        },
    }
}

/// Whether the reveal's segment is leaf `index` of the committed `leaves`, under
/// `root`: the leaf count has to be valid, the index in range, and the segment's hash,
/// folded with the path of leaf `index`, has to give the root.
pub open spec fn commitment_verdict(
    message: RevealMessage,
    leaves: Seq<[u8; 32]>,
    index: int,
    root: [u8; 32],
) -> Result<(), ProtocolError> {
    match message.verdict() {
        Err(e) => Err(e),
        Ok(_) => if is_power_of_two(leaves.len()) && 0 <= index < leaves.len() && fold_path(
            blake3_digest(message.segment@),
            merkle_path(leaves, index),
        ) == root {
            Ok(())
        } else {
            Err(ProtocolError::NotCommitted)
        },
    }
}

/// Checks a reveal against a commitment of which the verifier holds the leaves: the
/// segment has to stand at leaf `index`, by the inclusion path that the leaves give.
pub fn verify_reveal_at(
    message: &RevealMessage,
    leaves: &Vec<[u8; 32]>,
    index: usize,
    root: &[u8; 32],
) -> (result: Result<(), ProtocolError>)
    ensures
        result == commitment_verdict(*message, leaves@, index as int, *root),
{
    match verify_reveal(message) {
        Err(e) => Err(e),
        Ok(_) => match build_path(leaves, index) {
            Ok(path) => {
                let leaf = Blake3Hasher::hash(message.segment.as_slice());
                if verify_path(&leaf, &path, root) {
                    Ok(())
                } else {
                    Err(ProtocolError::NotCommitted)
                }
            },
            Err(_) => Err(ProtocolError::NotCommitted),
        },
    }
}

/// The first position at which `leaves` holds `hash`: the least the verifier asks of a
/// revealed segment is that its hash is among the committed leaves.
pub fn committed_index(leaves: &Vec<[u8; 32]>, hash: &[u8; 32]) -> (found: Option<usize>)
    ensures
        found is Some <==> leaves@.contains(*hash),
        found matches Some(index) ==> {
            &&& index < leaves@.len()
            &&& leaves@[index as int] == *hash
            &&& forall|k: int| 0 <= k < index ==> leaves@[k] != *hash
        },
{
    let mut i: usize = 0;
    while i < leaves.len()
        invariant
            i <= leaves@.len(),
            forall|k: int| 0 <= k < i ==> leaves@[k] != *hash,
        decreases leaves@.len() - i,
    {
        if crate::hash::hash_eq(&leaves[i], hash) {
            assert(leaves@.contains(*hash));
            return Some(i);
        }
        i += 1;
    }
    None
}

/// The first position at which `leaves` holds `hash`; their number when they do not
/// hold it.
pub open spec fn first_index(leaves: Seq<[u8; 32]>, hash: [u8; 32]) -> int
    decreases leaves.len(),
{
    if leaves.len() == 0 || leaves[0] == hash {
        0
    } else {
        1 + first_index(leaves.drop_first(), hash)
    }
}

/// A position that holds `hash`, with none before it that does, is the first.
pub proof fn lemma_first_index(leaves: Seq<[u8; 32]>, hash: [u8; 32], index: int)
    requires
        0 <= index < leaves.len(),
        leaves[index] == hash,
        forall|k: int| 0 <= k < index ==> leaves[k] != hash,
    ensures
        first_index(leaves, hash) == index,
    decreases index,
{
    if index > 0 {
        let rest = leaves.drop_first();
        assert(leaves[0] != hash);
        assert forall|k: int| 0 <= k < index - 1 implies rest[k] != hash by {
            assert(rest[k] == leaves[k + 1]);
        }
        lemma_first_index(rest, hash, index - 1);
    }
}

/// The leaves that the verifier holds, as plain values.
pub open spec fn held_view(held: Option<Vec<[u8; 32]>>) -> Option<Seq<[u8; 32]>> {
    match held {
        Some(leaves) => Some(leaves@),
        None => None,
    }
}

/// The verdict on a reveal, given the leaves of the commit that the verifier holds, if
/// it holds one. The message's own verdict comes first. A message that passes it is
/// `NotCommitted` where nothing is held or the segment's hash is not among the leaves,
/// and is otherwise judged against the commitment at the first leaf that is the
/// segment's hash, under the root over the held leaves.
pub open spec fn held_verdict(message: RevealMessage, held: Option<Seq<[u8; 32]>>) -> Result<
    (),
    ProtocolError,
> {
    match message.verdict() {
        Err(e) => Err(e),
        Ok(_) => match held {
            None => Err(ProtocolError::NotCommitted),
            Some(leaves) => if leaves.contains(blake3_digest(message.segment@)) {
                commitment_verdict(
                    message,
                    leaves,
                    first_index(leaves, blake3_digest(message.segment@)),
                    merkle_root(leaves),
                )
            } else {
                Err(ProtocolError::NotCommitted)
            },
        },
    }
}

/// Judges a reveal against what the verifier holds: `held` is the leaves of the last
/// commit that passed, and nothing where no commit has passed yet.
pub fn judge_reveal(message: &RevealMessage, held: &Option<Vec<[u8; 32]>>) -> (result: Result<
    (),
    ProtocolError,
>)
    ensures
        result == held_verdict(*message, held_view(*held)),
{
    match verify_reveal(message) {
        Err(e) => Err(e),
        Ok(_) => match held {
            None => Err(ProtocolError::NotCommitted),
            Some(leaves) => {
                let digest = Blake3Hasher::hash(message.segment.as_slice());
                match committed_index(leaves, &digest) {
                    None => Err(ProtocolError::NotCommitted),
                    Some(index) => {
                        proof {
                            lemma_first_index(leaves@, digest, index as int);
                        }
                        match build_root(leaves) {
                            Ok(root) => verify_reveal_at(message, leaves, index, &root),
                            Err(_) => Err(ProtocolError::NotCommitted),
                        }
                    },
                }
            },
        },
    }
}

/// A true reveal of a committed block is accepted by the verifier that holds the
/// commit: a message that is accepted on its own passes, when the held leaves make a
/// tree and the segment's hash is among them.
pub proof fn lemma_committed_reveal_is_judged_accepted(message: RevealMessage, leaves: Seq<[u8; 32]>)
    requires
        message.verdict() is Ok,
        is_power_of_two(leaves.len()),
        leaves.contains(blake3_digest(message.segment@)),
    ensures
        held_verdict(message, Some(leaves)) is Ok,
{
    let digest = blake3_digest(message.segment@);
    let at = choose|i: int| 0 <= i < leaves.len() && leaves[i] == digest;
    lemma_first_index_holds(leaves, digest, at);
    lemma_committed_block_is_accepted(message, leaves, first_index(leaves, digest));
}

/// Where `leaves` holds `hash`, the first position is in range and holds it.
pub proof fn lemma_first_index_holds(leaves: Seq<[u8; 32]>, hash: [u8; 32], at: int)
    requires
        0 <= at < leaves.len(),
        leaves[at] == hash,
    ensures
        0 <= first_index(leaves, hash) <= at,
        leaves[first_index(leaves, hash)] == hash,
    decreases leaves.len(),
{
    if leaves[0] != hash {
        let rest = leaves.drop_first();
        assert(rest[at - 1] == leaves[at]);
        lemma_first_index_holds(rest, hash, at - 1);
        assert(rest[first_index(rest, hash)] == leaves[first_index(rest, hash) + 1]);
    }
}

/// A reveal that is rejected on its own is rejected by the verifier, whatever it holds,
/// and with the same error.
pub proof fn lemma_rejected_reveal_is_judged_rejected(
    message: RevealMessage,
    held: Option<Seq<[u8; 32]>>,
)
    requires
        message.verdict() is Err,
    ensures
        held_verdict(message, held) == message.verdict(),
{
}

/// What acceptance against a commitment is worth: when the root is that of the leaves
/// and the reveal is accepted at `index`, by the leaves or by a path, the segment hashes
/// to leaf `index`, unless the check has come across a collision of the hash.
pub proof fn lemma_accepted_reveal_is_committed(
    message: RevealMessage,
    leaves: Seq<[u8; 32]>,
    index: int,
    path: Seq<PathStep>,
)
    requires
        (commitment_verdict(message, leaves, index, merkle_root(leaves)) is Ok && path
            == merkle_path(leaves, index)) || (path_verdict(
            message,
            index,
            leaves.len(),
            path,
            merkle_root(leaves),
        ) is Ok),
    ensures
        blake3_digest(message.segment@) == leaves[index] || path_collision(
            blake3_digest(message.segment@),
            path,
            leaves[index],
            merkle_path(leaves, index),
        ),
{
    lemma_own_path_fits(leaves, index);
    lemma_inclusion_is_sound(leaves, index, blake3_digest(message.segment@), path);
}

/// A true reveal of a committed block is accepted against the commitment: a message
/// that is accepted on its own and whose segment hashes to leaf `index` passes at that
/// leaf, by the leaves and by the leaf's own path.
pub proof fn lemma_committed_block_is_accepted(
    message: RevealMessage,
    leaves: Seq<[u8; 32]>,
    index: int,
)
    requires
        message.verdict() is Ok,
        is_power_of_two(leaves.len()),
        0 <= index < leaves.len(),
        leaves[index] == blake3_digest(message.segment@),
    ensures
        commitment_verdict(message, leaves, index, merkle_root(leaves)) is Ok,
        path_verdict(
            message,
            index,
            leaves.len(),
            merkle_path(leaves, index),
            merkle_root(leaves),
        ) is Ok,
{
    lemma_path_reaches_root(leaves, index);
    lemma_own_path_fits(leaves, index);
}

/// The leaves of a process's snapshot: the regions worth hashing are joined from what
/// their reads returned, and the image is cut into leaves.
///
/// Fails with `NoContent` when the snapshot holds no complete block.
pub fn generate_leaves_from_process(dumper: &MemoryDumper, reads: &Vec<Option<Vec<u8>>>) -> (result:
    Result<Vec<[u8; 32]>, StructuralError>)
    ensures
        ({
            let image = snapshot_of(
                dumper.is_open(),
                region_views(dumper.selected(RegionFilter::Interesting)),
                read_views(reads@),
            );
            &&& result is Err <==> image.len() < CHUNK_SIZE
            &&& result matches Err(e) ==> e == StructuralError::NoContent
            &&& result matches Ok(leaves) ==> leaves@ == leaves_of(image, CHUNK_SIZE as nat)
        }),
{
    let image = dumper.dump_regions(RegionFilter::Interesting, reads);
    generate_leaves_from_memory(image.as_slice())
}

/// The two messages of a round over a stored memory image: the commit to the image's
/// leaves, and the reveal of the image's first block at `REVEAL_OFFSETS`. The reveal
/// passes the verifier's check against the commitment, at leaf 0.
///
/// Fails with `NoContent` when the image holds no complete block.
pub fn prepare_round(image: &[u8]) -> (result: Result<(CommitMessage, RevealMessage), StructuralError>)
    ensures
        result is Err <==> image@.len() < CHUNK_SIZE,
        result matches Err(e) ==> e == StructuralError::NoContent,
        result matches Ok((commit, disclosure)) ==> {
            &&& commit.commits_to(leaves_of(image@, CHUNK_SIZE as nat))
            &&& disclosure.segment@ == image@.subrange(0, CHUNK_SIZE as int)
            &&& disclosure.indices == REVEAL_OFFSETS
            &&& disclosure.verdict() is Ok
            &&& commitment_verdict(
                disclosure,
                leaves_of(image@, CHUNK_SIZE as nat),
                0,
                merkle_root(leaves_of(image@, CHUNK_SIZE as nat)),
            ) is Ok
        },
{
    let (leaves, segment) = match generate_leaves_from_file(image) {
        Ok(parts) => parts,
        Err(e) => {
            return Err(e);
        },
    };
    proof {
        let count = content_leaf_count(image@.len(), CHUNK_SIZE as nat);
        lemma_next_power_of_two(count);
        assert(count >= 1) by {
            if count == 0 {
                vstd::arithmetic::div_mod::lemma_fundamental_div_mod(
                    image@.len() as int,
                    CHUNK_SIZE as int,
                );
            }
        }
        assert(chunk_at(image@, CHUNK_SIZE as nat, 0) =~= segment@);
        assert(leaves@[0] == blake3_digest(segment@));
    }
    let disclosure = match build_reveal(segment.as_slice(), REVEAL_OFFSETS) {
        Some(message) => message,
        None => {
            return Err(StructuralError::NoContent);
        },
    };
    let commit = match build_commit(&leaves) {
        Ok(commit) => commit,
        Err(e) => {
            return Err(e);
        },
    };
    proof {
        lemma_committed_block_is_accepted(disclosure, leaves@, 0);
    }
    Ok((commit, disclosure))
}

/// Where a round stands.
#[derive(Debug, Clone, Copy, PartialEq, Eq, Structural)]
pub enum RoundState {
    /// Nothing has been done yet.
    Idle,
    /// The snapshot has been taken and its leaves derived.
    Snapshotted,
    /// The root has been computed and the commit handed to the transport.
    Committed,
    /// The reveal has been handed to the transport.
    Revealed,
    /// Both messages were delivered.
    Acknowledged,
    /// The verifier found a message inconsistent.
    Rejected,
    /// A message could not be sent.
    Failed,
}

/// What became of a message that was handed to the transport.
#[derive(Debug, Clone, Copy, PartialEq, Eq, Structural)]
pub enum SendOutcome {
    /// The verifier took the message.
    Delivered,
    /// The verifier turned the message down.
    Rejected,
    /// The message did not get through.
    TransportFailed,
}

/// What became of a message, told from how the transport's request ended: `status` is
/// the status code of the verifier's answer, and nothing where no answer came. An answer
/// in the range 200 to 299 has taken the message, any other answer has turned it down.
pub open spec fn outcome_of(status: Option<u16>) -> SendOutcome {
    match status {
        None => SendOutcome::TransportFailed,
        Some(code) => if 200 <= code <= 299 {
            SendOutcome::Delivered
        } else {
            SendOutcome::Rejected
        },
    }
}

/// Tells what became of a message from how the transport's request ended.
pub fn classify_send(status: Option<u16>) -> (outcome: SendOutcome)
    ensures
        outcome == outcome_of(status),
{
    match status {
        None => SendOutcome::TransportFailed,
        Some(code) => if 200 <= code && code <= 299 {
            SendOutcome::Delivered
        } else {
            SendOutcome::Rejected
        },
    }
}

/// What has happened in a round since its last step.
#[derive(Debug, Clone, Copy, PartialEq, Eq, Structural)]
pub enum RoundEvent {
    /// The snapshot was taken and gave leaves.
    SnapshotTaken,
    /// No snapshot could be taken, or it gave no leaves.
    SnapshotFailed,
    /// The commit was built and handed to the transport.
    CommitHanded,
    /// The leaves do not make a tree, so there is nothing to commit to.
    CommitInvalid,
    /// The transport reported on the message in flight.
    Sent(SendOutcome),
}

/// What the driver of a round has to do next.
#[derive(Debug, Clone, Copy, PartialEq, Eq, Structural)]
pub enum RoundAction {
    /// Take the snapshot and derive its leaves.
    TakeSnapshot,
    /// Compute the root and hand the commit to the transport.
    HandCommit,
    /// Wait for the transport to report on the commit.
    AwaitCommit,
    /// Wait for the transport to report on the reveal, which has been handed over.
    AwaitReveal,
    /// The round is over.
    End,
}

/// The round is over in this state.
pub open spec fn is_terminal(state: RoundState) -> bool {
    state == RoundState::Acknowledged || state == RoundState::Rejected || state
        == RoundState::Failed
}

/// The state that follows `state` on `event`. A round runs from `Idle` over
/// `Snapshotted`, `Committed` and `Revealed` to one of the three terminal states. A
/// failed snapshot and an invalid leaf sequence abort the round before anything is
/// sent, which leaves it `Idle`. An event that has no place in a state changes nothing.
pub open spec fn next_state(state: RoundState, event: RoundEvent) -> RoundState {
    match (state, event) {
        (RoundState::Idle, RoundEvent::SnapshotTaken) => RoundState::Snapshotted,
        (RoundState::Snapshotted, RoundEvent::CommitHanded) => RoundState::Committed,
        (RoundState::Snapshotted, RoundEvent::CommitInvalid) => RoundState::Idle,
        (RoundState::Committed, RoundEvent::Sent(SendOutcome::Delivered)) => RoundState::Revealed,
        (RoundState::Committed, RoundEvent::Sent(SendOutcome::Rejected)) => RoundState::Rejected,
        (RoundState::Committed, RoundEvent::Sent(SendOutcome::TransportFailed)) => RoundState::Failed,
        (RoundState::Revealed, RoundEvent::Sent(SendOutcome::Delivered)) => RoundState::Acknowledged,
        (RoundState::Revealed, RoundEvent::Sent(SendOutcome::Rejected)) => RoundState::Rejected,
        (RoundState::Revealed, RoundEvent::Sent(SendOutcome::TransportFailed)) => RoundState::Failed,
        _ => state,
    }
}

/// What is to be done on reaching `state` by `event`. The round ends in a terminal
/// state and where it was aborted; an event that has no place in a state ends it too.
pub open spec fn next_action(state: RoundState, event: RoundEvent) -> RoundAction {
    match (state, event) {
        (RoundState::Idle, RoundEvent::SnapshotTaken) => RoundAction::HandCommit,
        (RoundState::Snapshotted, RoundEvent::CommitHanded) => RoundAction::AwaitCommit,
        (RoundState::Committed, RoundEvent::Sent(SendOutcome::Delivered)) => RoundAction::AwaitReveal,
        _ => RoundAction::End,
    }
}

/// The first thing to do in a round.
pub fn begin_round() -> (start: (RoundState, RoundAction))
    ensures
        start == (RoundState::Idle, RoundAction::TakeSnapshot),
{
    (RoundState::Idle, RoundAction::TakeSnapshot)
}

/// Takes a round one step further: the state that follows on `event`, and what is to be
/// done next.
pub fn advance(state: RoundState, event: RoundEvent) -> (next: (RoundState, RoundAction))
    ensures
        next == (next_state(state, event), next_action(state, event)),
{
    match (state, event) {
        (RoundState::Idle, RoundEvent::SnapshotTaken) => (
            RoundState::Snapshotted,
            RoundAction::HandCommit,
        ),
        (RoundState::Snapshotted, RoundEvent::CommitHanded) => (
            RoundState::Committed,
            RoundAction::AwaitCommit,
        ),
        (RoundState::Snapshotted, RoundEvent::CommitInvalid) => (RoundState::Idle, RoundAction::End),
        (RoundState::Committed, RoundEvent::Sent(outcome)) => match outcome {
            SendOutcome::Delivered => (RoundState::Revealed, RoundAction::AwaitReveal),
            SendOutcome::Rejected => (RoundState::Rejected, RoundAction::End),
            SendOutcome::TransportFailed => (RoundState::Failed, RoundAction::End),
        },
        (RoundState::Revealed, RoundEvent::Sent(outcome)) => match outcome {
            SendOutcome::Delivered => (RoundState::Acknowledged, RoundAction::End),
            SendOutcome::Rejected => (RoundState::Rejected, RoundAction::End),
            SendOutcome::TransportFailed => (RoundState::Failed, RoundAction::End),
        },
        _ => (state, RoundAction::End),
    }
}

/// Whether the loop goes on to another round after one that ended in `state`: it stops
/// for good once a message could not be sent, and only then.
pub fn continues_after(state: RoundState) -> (again: bool)
    ensures
        again == (state != RoundState::Failed),
{
    match state {
        RoundState::Failed => false,
        _ => true,
    }
}

/// A terminal state is final, a round fails only when the transport does, and nothing
/// is sent for a snapshot that failed or for leaves that make no tree.
pub proof fn lemma_round_rules(state: RoundState, event: RoundEvent)
    ensures
        is_terminal(state) ==> next_state(state, event) == state && next_action(state, event)
            == RoundAction::End,
        next_state(state, event) == RoundState::Failed && state != RoundState::Failed ==> event
            == RoundEvent::Sent(SendOutcome::TransportFailed),
        event == RoundEvent::SnapshotFailed || event == RoundEvent::CommitInvalid ==> next_action(
            state,
            event,
        ) == RoundAction::End && !(next_state(state, event) == RoundState::Committed && state
            != RoundState::Committed),
{
}

/// Why the verifier turns a commit down.
#[derive(Debug, Clone, Copy, PartialEq, Eq, Structural)]
pub enum CommitError {
    /// A listed leaf is not the hexadecimal text of 32 bytes.
    MalformedLeaf,
    /// The leaves are none, or their number is not a power of two.
    InvalidLeafCount,
    /// The stated root is not the text of the root over the listed leaves.
    RootMismatch,
}

/// The texts that a commit lists, batch after batch.
pub open spec fn listed_texts(path: Seq<Vec<String>>) -> Seq<Seq<char>>
    decreases path.len(),
{
    if path.len() == 0 {
        Seq::empty()
    } else {
        listed_texts(path.drop_last()) + Seq::new(
            path.last()@.len(),
            |i: int| path.last()@[i]@,
        )
    }
}

/// `text` is a hexadecimal text of the 32 bytes of `leaf`.
pub open spec fn writes_leaf(text: Seq<char>, leaf: [u8; 32]) -> bool {
    hex_decoded(encode_utf8(text)) == Ok::<Seq<u8>, HexError>(leaf@)
}

/// `text` is a hexadecimal text of some 32 bytes.
pub open spec fn writes_a_leaf(text: Seq<char>) -> bool {
    hex_decoded(encode_utf8(text)) matches Ok(bytes) && bytes.len() == 32
}

/// `texts` are, one by one, hexadecimal texts of `leaves`.
pub open spec fn write_leaves(texts: Seq<Seq<char>>, leaves: Seq<[u8; 32]>) -> bool {
    &&& texts.len() == leaves.len()
    &&& forall|i: int| 0 <= i < texts.len() ==> writes_leaf(#[trigger] texts[i], leaves[i])
}

/// Reads the hexadecimal text of a leaf, with or without `0x` marks.
pub fn decode_leaf(text: &str) -> (leaf: Option<[u8; 32]>)
    ensures
        leaf is Some <==> writes_a_leaf(text@),
        leaf matches Some(l) ==> writes_leaf(text@, l),
{
    match hex_to_bytes(text) {
        Ok(bytes) => {
            if bytes.len() != 32 {
                return None;
            }
            let mut leaf: [u8; 32] = [0u8; 32];
            let mut i: usize = 0;
            while i < 32
                invariant
                    i <= 32,
                    bytes@.len() == 32,
                    forall|k: int| 0 <= k < i ==> leaf@[k] == bytes@[k],
                decreases 32 - i,
            {
                leaf[i] = bytes[i];
                i += 1;
            }
            assert(leaf@ =~= bytes@);
            Some(leaf)
        },
        Err(_) => None,
    }
}

/// The leaves that a commit lists, in order; none when a listed text is not that of a
/// leaf.
pub fn committed_leaves(commit: &CommitMessage) -> (result: Option<Vec<[u8; 32]>>)
    ensures
        result matches Some(leaves) ==> write_leaves(listed_texts(commit.path@), leaves@),
        result is None ==> exists|i: int|
            0 <= i < listed_texts(commit.path@).len() && !writes_a_leaf(
                #[trigger] listed_texts(commit.path@)[i],
            ),
{
    let mut leaves: Vec<[u8; 32]> = Vec::new();
    let mut b: usize = 0;
    while b < commit.path.len()
        invariant
            b <= commit.path@.len(),
            write_leaves(listed_texts(commit.path@.take(b as int)), leaves@),
        decreases commit.path@.len() - b,
    {
        let batch = &commit.path[b];
        let ghost before = listed_texts(commit.path@.take(b as int));
        let ghost texts = Seq::new(batch@.len(), |i: int| batch@[i]@);
        proof {
            assert(commit.path@.take(b + 1).drop_last() =~= commit.path@.take(b as int));
            assert(commit.path@.take(b + 1).last() == *batch);
            assert(listed_texts(commit.path@.take(b + 1)) == before + texts);
        }
        let mut i: usize = 0;
        while i < batch.len()
            invariant
                i <= batch@.len(),
                b < commit.path@.len(),
                *batch == commit.path@[b as int],
                texts == Seq::new(batch@.len(), |i: int| batch@[i]@),
                before == listed_texts(commit.path@.take(b as int)),
                listed_texts(commit.path@.take(b + 1)) == before + texts,
                write_leaves(before + texts.take(i as int), leaves@),
            decreases batch@.len() - i,
        {
            let ghost so_far = before + texts.take(i as int);
            match decode_leaf(batch[i].as_str()) {
                Some(leaf) => {
                    leaves.push(leaf);
                    proof {
                        let longer = before + texts.take(i + 1);
                        assert(longer =~= so_far.push(texts[i as int]));
                        assert forall|k: int| 0 <= k < longer.len() implies writes_leaf(
                            #[trigger] longer[k],
                            leaves@[k],
                        ) by {
                            if k < so_far.len() {
                                assert(longer[k] == so_far[k]);
                            }
                        }
                    }
                },
                None => {
                    proof {
                        let all = listed_texts(commit.path@);
                        let upto = listed_texts(commit.path@.take(b + 1));
                        lemma_listed_prefix(commit.path@, b + 1);
                        let at = before.len() + i;
                        assert(upto[at] == texts[i as int]);
                        assert(all[at] == texts[i as int]);
                        assert(!writes_a_leaf(all[at]));
                    }
                    return None;
                },
            }
            i += 1;
        }
        assert(texts.take(batch@.len() as int) =~= texts);
        b += 1;
    }
    assert(commit.path@.take(commit.path@.len() as int) =~= commit.path@);
    Some(leaves)
}

/// What the first batches of a commit list is the beginning of what the commit lists.
pub proof fn lemma_listed_prefix(path: Seq<Vec<String>>, b: int)
    requires
        0 <= b <= path.len(),
    ensures
        listed_texts(path.take(b)).len() <= listed_texts(path).len(),
        listed_texts(path.take(b)) == listed_texts(path).take(
            listed_texts(path.take(b)).len() as int,
        ),
    decreases path.len() - b,
{
    if b == path.len() {
        assert(path.take(b) =~= path);
        assert(listed_texts(path).take(listed_texts(path).len() as int) =~= listed_texts(path));
    } else {
        lemma_listed_prefix(path, b + 1);
        assert(path.take(b + 1).drop_last() =~= path.take(b));
        let shorter = listed_texts(path.take(b));
        let longer = listed_texts(path.take(b + 1));
        assert(shorter =~= longer.take(shorter.len() as int));
        assert(shorter =~= listed_texts(path).take(shorter.len() as int));
    }
}

impl CommitMessage {
    /// The commit passes the verifier's check with `leaves`: the texts it lists write
    /// them, they make a tree, and the stated root is the text of the root over them.
    pub open spec fn passes_with(&self, leaves: Seq<[u8; 32]>) -> bool {
        &&& write_leaves(listed_texts(self.path@), leaves)
        &&& is_power_of_two(leaves.len())
        &&& self.root@ == prefixed_hex(merkle_root(leaves)@)
    }

    /// The commit fails the verifier's check with `error`: a listed text is not that of a
    /// leaf; or the texts write leaves that make no tree; or they write leaves that make
    /// a tree under another root than the stated one.
    pub open spec fn fails_with(&self, error: CommitError) -> bool {
        match error {
            CommitError::MalformedLeaf => exists|i: int|
                0 <= i < listed_texts(self.path@).len() && !writes_a_leaf(
                    #[trigger] listed_texts(self.path@)[i],
                ),
            CommitError::InvalidLeafCount => exists|leaves: Seq<[u8; 32]>|
                #[trigger] write_leaves(listed_texts(self.path@), leaves) && !is_power_of_two(
                    leaves.len(),
                ),
            CommitError::RootMismatch => exists|leaves: Seq<[u8; 32]>|
                #[trigger] write_leaves(listed_texts(self.path@), leaves) && is_power_of_two(
                    leaves.len(),
                ) && self.root@ != prefixed_hex(merkle_root(leaves)@),
        }
    }
}

/// Checks a commit: every listed text has to be that of a leaf, the leaves have to make
/// a tree, and the stated root has to be the text of the root over them. On success the
/// leaves are handed out, for the reveals to be checked against.
pub fn verify_commit(commit: &CommitMessage) -> (result: Result<Vec<[u8; 32]>, CommitError>)
    ensures
        match result {
            Ok(leaves) => commit.passes_with(leaves@),
            Err(error) => commit.fails_with(error),
        },
{
    let leaves = match committed_leaves(commit) {
        Some(leaves) => leaves,
        None => {
            return Err(CommitError::MalformedLeaf);
        },
    };
    let root = match build_root(&leaves) {
        Ok(root) => root,
        Err(_) => {
            return Err(CommitError::InvalidLeafCount);
        },
    };
    let expected = hash_text(&root);
    if expected != commit.root {
        return Err(CommitError::RootMismatch);
    }
    Ok(leaves)
}

/// Texts write at most one sequence of leaves.
pub proof fn lemma_leaves_are_determined(
    texts: Seq<Seq<char>>,
    leaves: Seq<[u8; 32]>,
    other: Seq<[u8; 32]>,
)
    requires
        write_leaves(texts, leaves),
        write_leaves(texts, other),
    ensures
        leaves == other,
{
    assert forall|i: int| 0 <= i < leaves.len() implies leaves[i] == other[i] by {
        assert(writes_leaf(texts[i], leaves[i]));
        assert(writes_leaf(texts[i], other[i]));
        assert(leaves[i]@ == other[i]@);
        assert(leaves[i] =~= other[i]);
    }
    assert(leaves =~= other);
}

/// A commit that was built for leaves lists, batch after batch, the texts of the leaves.
pub proof fn lemma_batches_list_all(path: Seq<Vec<String>>, texts: Seq<Seq<char>>, b: int)
    requires
        path_texts(path) == batches(texts),
        0 <= b <= path.len(),
    ensures
        listed_texts(path.take(b)) == texts.take(
            if b < path.len() {
                b * PATH_LENGTH
            } else {
                texts.len() as int
            },
        ),
    decreases b,
{
    assert(path_texts(path).len() == path.len());
    if b == 0 {
        assert(path.take(0) =~= Seq::<Vec<String>>::empty());
        if path.len() == 0 {
            assert(texts.take(texts.len() as int) =~= Seq::<Seq<char>>::empty());
        } else {
            assert(texts.take(0) =~= Seq::<Seq<char>>::empty());
        }
    } else {
        lemma_batches_list_all(path, texts, b - 1);
        assert(path.take(b).drop_last() =~= path.take(b - 1));
        assert(path.take(b).last() == path[b - 1]);
        let batch = Seq::new(path[b - 1]@.len(), |i: int| path[b - 1]@[i]@);
        assert(batch == path_texts(path)[b - 1]);
        assert(batch == texts.subrange((b - 1) * PATH_LENGTH, batch_end(texts.len(), b - 1)));
        let end = if b < path.len() {
            b * PATH_LENGTH
        } else {
            texts.len() as int
        };
        assert(batch_end(texts.len(), b - 1) == end);
        assert(texts.take((b - 1) * PATH_LENGTH) + batch =~= texts.take(end));
    }
}

/// A commit that was built for leaves passes the verifier's check with exactly those
/// leaves: the texts it lists write them and no others, and its root is that over them.
pub proof fn lemma_built_commit_reads_back(commit: CommitMessage, leaves: Seq<[u8; 32]>)
    requires
        commit.commits_to(leaves),
    ensures
        write_leaves(listed_texts(commit.path@), leaves),
        forall|other: Seq<[u8; 32]>|
            write_leaves(listed_texts(commit.path@), other) ==> other == leaves,
{
    let texts = leaf_texts(leaves);
    lemma_batches_list_all(commit.path@, texts, commit.path@.len() as int);
    assert(commit.path@.take(commit.path@.len() as int) =~= commit.path@);
    assert(texts.take(texts.len() as int) =~= texts);
    assert forall|i: int| 0 <= i < texts.len() implies writes_leaf(#[trigger] texts[i], leaves[i]) by {
        lemma_marked_hex_round_trip(leaves[i]@);
    }
    assert forall|other: Seq<[u8; 32]>|
        write_leaves(listed_texts(commit.path@), other) implies other == leaves by {
        lemma_leaves_are_determined(texts, other, leaves);
    }
}

/// A commit that was built for leaves that make a tree passes the verifier's check,
/// with exactly those leaves, and fails it in no way.
pub proof fn lemma_built_commit_passes(commit: CommitMessage, leaves: Seq<[u8; 32]>)
    requires
        commit.commits_to(leaves),
        is_power_of_two(leaves.len()),
    ensures
        commit.passes_with(leaves),
        forall|other: Seq<[u8; 32]>| commit.passes_with(other) ==> other == leaves,
        forall|error: CommitError| !commit.fails_with(error),
{
    lemma_built_commit_reads_back(commit, leaves);
    let texts = listed_texts(commit.path@);
    assert forall|error: CommitError| !commit.fails_with(error) by {
        if commit.fails_with(error) {
            match error {
                CommitError::MalformedLeaf => {
                    let i = choose|i: int| 0 <= i < texts.len() && !writes_a_leaf(#[trigger] texts[i]);
                    assert(writes_leaf(texts[i], leaves[i]));
                },
                CommitError::InvalidLeafCount => {
                    let other = choose|other: Seq<[u8; 32]>|
                        #[trigger] write_leaves(texts, other) && !is_power_of_two(other.len());
                    assert(other == leaves);
                },
                CommitError::RootMismatch => {
                    let other = choose|other: Seq<[u8; 32]>|
                        #[trigger] write_leaves(texts, other) && is_power_of_two(other.len())
                            && commit.root@ != prefixed_hex(merkle_root(other)@);
                    assert(other == leaves);
                },
            }
        }
    }
}

} // verus!
