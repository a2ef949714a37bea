//! The temporal profiler: which leaf slots keep their hash over a window of samples,
//! and the reduced image that keeps only those.

use vstd::prelude::*;
use std::io::Write;
use crate::leaves::{generate_leaves_from_file, leaves_of, CHUNK_SIZE};
use crate::text::{chars_of, number_text, push_chars, push_number, text_of};

verus! {

/// The error of `std::io`, as the encoder reports it. It is carried through unopened.
#[verifier::external_type_specification]
#[verifier::external_body]
pub struct ExIoError(std::io::Error);

/// The gzip stream that the encoder writes for `data` at its default level.
pub uninterp spec fn gzip_stream(data: Seq<u8>) -> Seq<u8>;

/// Runs `data` through a `flate2::write::GzEncoder` over an empty `Vec<u8>`, at
/// `Compression::default()`, and takes the buffer back with `finish`.
/// Trusted: the encoder reports no error, and the buffer holds the gzip stream of
/// `data`, which depends on `data` alone (the header carries no time and no name). The
/// encoder's errors are those of its sink and of a compressor driven out of order; a
/// `Vec<u8>` takes every write, and the data is written before the stream is finished.
#[verifier::external_body]
fn gzip_encode(data: &[u8]) -> (result: Result<Vec<u8>, std::io::Error>)
    ensures
        result is Ok,
        result matches Ok(stream) ==> stream@ == gzip_stream(data@),
{
    let mut encoder = flate2::write::GzEncoder::new(Vec::new(), flate2::Compression::default());
    encoder.write_all(data)?;
    encoder.finish()
}

/// The number of samples that a profiling window takes after its initial snapshot.
pub const PROFILE_SAMPLE_COUNT: usize = 60;

/// The milliseconds between two samples of a window.
pub const PROFILE_INTERVAL_MILLIS: u64 = 1000;

/// The number of stored images that make a window: the initial one and its samples.
pub const STORED_IMAGE_COUNT: usize = 10;

/// Why a profile could not be completed.
#[derive(Clone, Copy, Debug, PartialEq, Eq, Structural)]
pub enum ProfileError {
    /// A memory image held no complete block.
    NoContent,
    /// The encoder failed to compress the reduced image.
    Compression,
}

/// Slot `i` holds the same hash in `sample` as in the initial leaves. A slot that
/// `sample` lacks has changed.
pub open spec fn slot_unchanged(initial: Seq<[u8; 32]>, sample: Seq<[u8; 32]>, i: int) -> bool {
    i < sample.len() && sample[i] == initial[i]
}

/// Slot `i` holds the initial hash in every sample.
pub open spec fn slot_is_static(
    initial: Seq<[u8; 32]>,
    samples: Seq<Seq<[u8; 32]>>,
    i: int,
) -> bool {
    forall|k: int| 0 <= k < samples.len() ==> slot_unchanged(initial, #[trigger] samples[k], i)
}

/// The staticness map of a window: one flag per slot of the initial leaves.
pub open spec fn staticness_of(initial: Seq<[u8; 32]>, samples: Seq<Seq<[u8; 32]>>) -> Seq<bool> {
    Seq::new(initial.len(), |i: int| slot_is_static(initial, samples, i))
}

/// The number of flags that are set.
pub open spec fn count_static(flags: Seq<bool>) -> nat
    decreases flags.len(),
{
    if flags.len() == 0 {
        0
    } else {
        count_static(flags.drop_last()) + if flags.last() {
            1nat
        } else {
            0nat
        }
    }
}

/// The reduced image: 32 bytes per slot, the leaf's hash where the slot is static and
/// zeros where it is dynamic.
pub open spec fn reduced_bytes(leaves: Seq<[u8; 32]>, flags: Seq<bool>) -> Seq<u8> {
    Seq::new(
        32 * leaves.len(),
        |k: int|
            if flags[k / 32] {
                leaves[k / 32]@[k % 32]
            } else {
                0u8
            },
    )
}

/// The samples of a window, each as the sequence of its leaves.
pub open spec fn sample_views(samples: Seq<Vec<[u8; 32]>>) -> Seq<Seq<[u8; 32]>> {
    Seq::new(samples.len(), |k: int| samples[k]@)
}

/// A profiling window in progress: the initial leaves and, per slot, whether every
/// sample so far has shown the initial hash there.
pub struct Profiler {
    initial: Vec<[u8; 32]>,
    is_static: Vec<bool>,
}

impl Profiler {
    #[verifier::type_invariant]
    spec fn consistent(&self) -> bool {
        self.is_static@.len() == self.initial@.len()
    }

    /// The leaves of the initial snapshot.
    pub closed spec fn initial_leaves(&self) -> Seq<[u8; 32]> {
        self.initial@
    }

    /// The staticness map so far.
    pub closed spec fn staticness(&self) -> Seq<bool> {
        self.is_static@
    }

    /// Opens a window on its initial snapshot. Every slot starts out static.
    pub fn new(initial_leaves: Vec<[u8; 32]>) -> (profiler: Profiler)
        ensures
            profiler.initial_leaves() == initial_leaves@,
            profiler.staticness() == staticness_of(initial_leaves@, Seq::empty()),
    {
        let mut is_static: Vec<bool> = Vec::with_capacity(initial_leaves.len());
        let mut i: usize = 0;
        while i < initial_leaves.len()
            invariant
                i <= initial_leaves@.len(),
                is_static@.len() == i,
                forall|j: int| 0 <= j < i ==> is_static@[j],
            decreases initial_leaves@.len() - i,
        {
            is_static.push(true);
            i += 1;
        }
        assert(is_static@ =~= staticness_of(initial_leaves@, Seq::empty()));
        Profiler { initial: initial_leaves, is_static }
    }

    /// Takes one more sample into the window: a slot whose hash differs from the initial
    /// one becomes dynamic, and a dynamic slot stays dynamic.
    pub fn observe(&mut self, sample: &Vec<[u8; 32]>)
        ensures
            final(self).initial_leaves() == old(self).initial_leaves(),
            final(self).staticness().len() == old(self).staticness().len(),
            forall|i: int|
                0 <= i < old(self).staticness().len() ==> final(self).staticness()[i] == (old(
                    self,
                ).staticness()[i] && slot_unchanged(old(self).initial_leaves(), sample@, i)),
            forall|i: int|
                0 <= i < old(self).staticness().len() && !old(self).staticness()[i]
                    ==> !final(self).staticness()[i],
    {
        proof {
            use_type_invariant(&*self);
        }
        let count = self.initial.len();
        let mut i: usize = 0;
        while i < count
            invariant
                i <= count,
                count == self.initial@.len(),
                self.initial@ == old(self).initial@,
                self.is_static@.len() == count,
                forall|j: int|
                    0 <= j < i ==> self.is_static@[j] == (old(self).is_static@[j] && slot_unchanged(
                        self.initial@,
                        sample@,
                        j,
                    )),
                forall|j: int| i <= j < count ==> self.is_static@[j] == old(self).is_static@[j],
            decreases count - i,
        {
            if i >= sample.len() || !crate::hash::hash_eq(&self.initial[i], &sample[i]) {
                self.is_static[i] = false;
            }
            i += 1;
        }
    }

    /// The staticness map so far.
    pub fn staticness_map(&self) -> (flags: &Vec<bool>)
        ensures
            flags@ == self.staticness(),
    {
        &self.is_static
    }

    /// The leaves of the initial snapshot.
    pub fn initial(&self) -> (leaves: &Vec<[u8; 32]>)
        ensures
            leaves@ == self.initial_leaves(),
    {
        &self.initial
    }

    /// The number of slots that are still static.
    pub fn static_count(&self) -> (count: usize)
        ensures
            count == count_static(self.staticness()),
    {
        let mut count: usize = 0;
        let mut i: usize = 0;
        while i < self.is_static.len()
            invariant
                i <= self.is_static@.len(),
                count <= i,
                count == count_static(self.is_static@.take(i as int)),
            decreases self.is_static@.len() - i,
        {
            assert(self.is_static@.take(i + 1).drop_last() =~= self.is_static@.take(i as int));
            if self.is_static[i] {
                count += 1;
            }
            i += 1;
        }
        assert(self.is_static@.take(self.is_static@.len() as int) =~= self.is_static@);
        count
    }

    /// The reduced image: each static slot's hash, and 32 zero bytes for each dynamic
    /// slot, in slot order.
    pub fn static_memory(&self) -> (image: Vec<u8>)
        ensures
            image@ == reduced_bytes(self.initial_leaves(), self.staticness()),
    {
        proof {
            use_type_invariant(self);
        }
        let mut image: Vec<u8> = Vec::new();
        let mut i: usize = 0;
        while i < self.initial.len()
            invariant
                i <= self.initial@.len(),
                self.is_static@.len() == self.initial@.len(),
                image@.len() == 32 * i,
                forall|k: int|
                    0 <= k < image@.len() ==> image@[k] == reduced_bytes(
                        self.initial@,
                        self.is_static@,
                    )[k],
            decreases self.initial@.len() - i,
        {
            let keep = self.is_static[i];
            let leaf = &self.initial[i];
            let mut j: usize = 0;
            while j < 32
                invariant
                    j <= 32,
                    i < self.initial@.len(),
                    self.is_static@.len() == self.initial@.len(),
                    keep == self.is_static@[i as int],
                    *leaf == self.initial@[i as int],
                    image@.len() == 32 * i + j,
                    forall|k: int|
                        0 <= k < image@.len() ==> image@[k] == reduced_bytes(
                            self.initial@,
                            self.is_static@,
                        )[k],
                decreases 32 - j,
            {
                let byte: u8 = if keep {
                    leaf[j]
                } else {
                    0u8
                };
                image.push(byte);
                j += 1;
            }
            i += 1;
        }
        assert(image@ =~= reduced_bytes(self.initial@, self.is_static@));
        image
    }
}

/// The name of the file that keeps the baseline of process `pid`.
pub open spec fn baseline_name(pid: u32) -> Seq<char> {
    "static_memory_"@ + number_text(pid as nat, 10) + ".bin"@
}

/// The name of the file that keeps the baseline of process `pid`: `static_memory_`, the
/// process number in decimal, and `.bin`.
pub fn baseline_file_name(pid: u32) -> (name: String)
    ensures
        name@ == baseline_name(pid),
{
    let mut name = chars_of("static_memory_");
    push_number(&mut name, pid as u64, 10);
    push_chars(&mut name, &chars_of(".bin"));
    assert(name@.subrange(0, name@.len() as int) =~= name@);
    text_of(&name, 0, name.len())
}

/// What a finished window leaves behind.
#[derive(Debug)]
pub struct StaticProfile {
    /// The staticness map: one flag per slot of the initial leaves.
    pub is_static: Vec<bool>,
    /// The number of static slots.
    pub static_count: usize,
    /// The reduced image.
    pub static_memory: Vec<u8>,
    /// The reduced image as a gzip stream, for storage.
    pub compressed: Vec<u8>,
}

impl StaticProfile {
    /// This is the profile of the window that opened on `initial` and saw `samples`.
    pub open spec fn describes(&self, initial: Seq<[u8; 32]>, samples: Seq<Seq<[u8; 32]>>) -> bool {
        &&& self.is_static@ == staticness_of(initial, samples)
        &&& self.static_count == count_static(self.is_static@)
        &&& self.static_memory@ == reduced_bytes(initial, self.is_static@)
        &&& self.compressed@ == gzip_stream(self.static_memory@)
    }
}

/// Puts a profile together from the parts of a window and the outcome of compressing
/// its reduced image. The profile is refused exactly when compression failed.
pub fn seal_profile(
    is_static: Vec<bool>,
    static_count: usize,
    static_memory: Vec<u8>,
    compressed: Result<Vec<u8>, std::io::Error>,
) -> (result: Result<StaticProfile, ProfileError>)
    ensures
        result is Ok <==> compressed is Ok,
        result matches Err(e) ==> e == ProfileError::Compression,
        result matches Ok(profile) ==> {
            &&& profile.is_static == is_static
            &&& profile.static_count == static_count
            &&& profile.static_memory == static_memory
            &&& Ok::<Vec<u8>, std::io::Error>(profile.compressed) == compressed
        },
{
    match compressed {
        Ok(stream) => Ok(StaticProfile { is_static, static_count, static_memory, compressed: stream }),
        Err(_) => Err(ProfileError::Compression),
    }
}

/// Extending a window by one sample keeps a slot static exactly when it was static and
/// the new sample shows the initial hash there.
pub proof fn lemma_staticness_step(
    initial: Seq<[u8; 32]>,
    samples: Seq<Seq<[u8; 32]>>,
    sample: Seq<[u8; 32]>,
    i: int,
)
    ensures
        slot_is_static(initial, samples.push(sample), i) == (slot_is_static(initial, samples, i)
            && slot_unchanged(initial, sample, i)),
{
    let longer = samples.push(sample);
    if slot_is_static(initial, longer, i) {
        assert(longer[samples.len() as int] == sample);
        assert forall|k: int| 0 <= k < samples.len() implies slot_unchanged(
            initial,
            #[trigger] samples[k],
            i,
        ) by {
            assert(longer[k] == samples[k]);
        }
    }
    if slot_is_static(initial, samples, i) && slot_unchanged(initial, sample, i) {
        assert forall|k: int| 0 <= k < longer.len() implies slot_unchanged(
            initial,
            #[trigger] longer[k],
            i,
        ) by {
            if k < samples.len() {
                assert(longer[k] == samples[k]);
            }
        }
    }
}

/// Staticness is monotonic: a slot that is dynamic after some samples is dynamic after
/// any further samples of the same window.
pub proof fn lemma_dynamic_stays_dynamic(
    initial: Seq<[u8; 32]>,
    samples: Seq<Seq<[u8; 32]>>,
    later: Seq<Seq<[u8; 32]>>,
    i: int,
)
    requires
        0 <= i < initial.len(),
        !staticness_of(initial, samples)[i],
    ensures
        !staticness_of(initial, samples + later)[i],
{
    let k = choose|k: int| 0 <= k < samples.len() && !slot_unchanged(initial, #[trigger] samples[k], i);
    assert((samples + later)[k] == samples[k]);
}

impl Profiler {
    /// Closes the window: counts the static slots, reduces the image and compresses it.
    /// Every window can be closed.
    pub fn finish(self) -> (result: Result<StaticProfile, ProfileError>)
        ensures
            result is Ok,
            result matches Ok(profile) ==> {
                &&& profile.is_static@ == self.staticness()
                &&& profile.static_count == count_static(self.staticness())
                &&& profile.static_memory@ == reduced_bytes(self.initial_leaves(), self.staticness())
                &&& profile.compressed@ == gzip_stream(profile.static_memory@)
            },
    {
        let static_count = self.static_count();
        let static_memory = self.static_memory();
        let compressed = gzip_encode(static_memory.as_slice());
        seal_profile(self.is_static, static_count, static_memory, compressed)
    }
}

/// Profiles a window of leaf sequences: `initial_leaves` opens it and each of `samples`
/// is compared with it, slot by slot. Every window has its profile.
pub fn profile_memory_changes(initial_leaves: Vec<[u8; 32]>, samples: &Vec<Vec<[u8; 32]>>) -> (result:
    Result<StaticProfile, ProfileError>)
    ensures
        result is Ok,
        result matches Ok(profile) ==> profile.describes(initial_leaves@, sample_views(samples@)),
{
    let ghost initial = initial_leaves@;
    let ghost views = sample_views(samples@);
    let mut profiler = Profiler::new(initial_leaves);
    let mut k: usize = 0;
    while k < samples.len()
        invariant
            k <= samples@.len(),
            views == sample_views(samples@),
            profiler.initial_leaves() == initial,
            profiler.staticness() == staticness_of(initial, views.take(k as int)),
        decreases samples@.len() - k,
    {
        profiler.observe(&samples[k]);
        proof {
            let seen = views.take(k as int);
            assert(views.take(k + 1) =~= seen.push(samples@[k as int]@));
            assert forall|i: int| 0 <= i < initial.len() implies profiler.staticness()[i]
                == staticness_of(initial, views.take(k + 1))[i] by {
                lemma_staticness_step(initial, seen, samples@[k as int]@, i);
            }
            assert(profiler.staticness() =~= staticness_of(initial, views.take(k + 1)));
        }
        k += 1;
    }
    assert(views.take(samples@.len() as int) =~= views);
    profiler.finish()
}

/// The leaves of each stored image of a window.
pub open spec fn dump_leaves(dumps: Seq<Vec<u8>>) -> Seq<Seq<[u8; 32]>> {
    Seq::new(dumps.len(), |k: int| leaves_of(dumps[k]@, CHUNK_SIZE as nat))
}

/// Profiles a window of stored memory images: `initial_dump` opens it and each of
/// `later_dumps` is a sample.
///
/// Fails, with `NoContent`, exactly when one of the images holds no complete block.
pub fn profile_nes_memory(initial_dump: &[u8], later_dumps: &Vec<Vec<u8>>) -> (result: Result<
    StaticProfile,
    ProfileError,
>)
    ensures
        result is Err <==> (initial_dump@.len() < CHUNK_SIZE || exists|k: int|
            0 <= k < later_dumps@.len() && (#[trigger] later_dumps@[k])@.len() < CHUNK_SIZE),
        result matches Err(e) ==> e == ProfileError::NoContent,
        result matches Ok(profile) ==> profile.describes(
            leaves_of(initial_dump@, CHUNK_SIZE as nat),
            dump_leaves(later_dumps@),
        ),
{
    let initial_leaves = match generate_leaves_from_file(initial_dump) {
        Ok((leaves, _)) => leaves,
        Err(_) => {
            return Err(ProfileError::NoContent);
        },
    };
    let mut samples: Vec<Vec<[u8; 32]>> = Vec::with_capacity(later_dumps.len());
    let mut k: usize = 0;
    while k < later_dumps.len()
        invariant
            k <= later_dumps@.len(),
            samples@.len() == k,
            forall|j: int| 0 <= j < k ==> (#[trigger] later_dumps@[j])@.len() >= CHUNK_SIZE,
            forall|j: int|
                0 <= j < k ==> (#[trigger] samples@[j])@ == leaves_of(
                    later_dumps@[j]@,
                    CHUNK_SIZE as nat,
                ),
        decreases later_dumps@.len() - k,
    {
        match generate_leaves_from_file(later_dumps[k].as_slice()) {
            Ok((leaves, _)) => {
                samples.push(leaves);
            },
            Err(_) => {
                return Err(ProfileError::NoContent);
            },
        }
        k += 1;
    }
    assert(sample_views(samples@) =~= dump_leaves(later_dumps@));
    profile_memory_changes(initial_leaves, &samples)
}

} // verus!
