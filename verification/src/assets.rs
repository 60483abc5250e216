use crate::mojang::AssetIndex;
use crate::numeric::{arithmetic_is_total, is_quotient, is_sum, Scalar};
use crate::text::{ends_with, is_suffix, same_text};
use vstd::prelude::*;
use vstd::string::*;
use vstd::utf8::encode_utf8;

verus! {

/// Where assets are taken from.
#[derive(Clone, Copy, Debug, PartialEq, Eq, Structural)]
pub enum FetchBehavior {
    /// Only what the cache holds; nothing is fetched.
    CacheOnly,
    /// Everything is fetched again and replaces what the cache holds.
    Refetch,
    /// What the cache holds is used, and only the rest is fetched.
    FetchIfMissing,
}

impl FetchBehavior {
    /// The behaviour that the two switches ask for; none where both are set.
    pub fn from_flags(refetch: bool, local: bool) -> (behavior: Option<FetchBehavior>)
        ensures
            behavior == match (refetch, local) {
                (true, false) => Some(FetchBehavior::Refetch),
                (false, true) => Some(FetchBehavior::CacheOnly),
                (false, false) => Some(FetchBehavior::FetchIfMissing),
                (true, true) => None::<FetchBehavior>,
            },
    {
        if refetch && local {
            None
        } else if refetch {
            Some(FetchBehavior::Refetch)
        } else if local {
            Some(FetchBehavior::CacheOnly)
        } else {
            Some(FetchBehavior::FetchIfMissing)
        }
    }

    /// Whether the asset index is needed at all: not when only the cache is used.
    pub fn needs_index(&self) -> (needed: bool)
        ensures
            needed == !(*self is CacheOnly),
    {
        match self {
            FetchBehavior::CacheOnly => false,
            _ => true,
        }
    }

    /// Whether the sounds that the cache holds are read: not when everything is fetched
    /// again.
    pub fn reads_cache(&self) -> (read: bool)
        ensures
            read == !(*self is Refetch),
    {
        match self {
            FetchBehavior::Refetch => false,
            _ => true,
        }
    }
}

/// A sound of a definition, with all that may be said about it.
#[derive(Clone, Debug)]
pub struct ResourceLocation<T> {
    pub name: String,
    pub volume: Option<T>,
    pub pitch: Option<T>,
    pub weight: Option<usize>,
    pub resource_type: Option<String>,
}

/// A sound of a definition: its bare name, or the name with more about it.
#[derive(Clone, Debug)]
pub enum AudioResourceLocation<T> {
    Partial(String),
    Full(ResourceLocation<T>),
}

/// What is played under one identifier.
#[derive(Clone, Debug)]
pub struct SoundDefinition<T> {
    pub sounds: Vec<AudioResourceLocation<T>>,
    pub subtitle: Option<String>,
}

/// Where the sound definitions come from.
#[derive(Clone, Copy, Debug, PartialEq, Eq, Structural)]
pub enum DefinitionsSource {
    /// They are read from the cache.
    Cache,
    /// They are fetched, and the cache is written.
    Remote,
    /// Only the cache may be used and it holds none: the fetch fails.
    Missing,
}

/// Where the sound definitions come from under `behavior`, given whether the cache holds them.
pub fn definitions_source(behavior: &FetchBehavior, cached: bool) -> (source: DefinitionsSource)
    ensures
        source == match *behavior {
            FetchBehavior::CacheOnly => if cached {
                DefinitionsSource::Cache
            } else {
                DefinitionsSource::Missing
            },
            FetchBehavior::FetchIfMissing => if cached {
                DefinitionsSource::Cache
            } else {
                DefinitionsSource::Remote
            },
            FetchBehavior::Refetch => DefinitionsSource::Remote,
        },
{
    match behavior {
        FetchBehavior::CacheOnly => if cached {
            DefinitionsSource::Cache
        } else {
            DefinitionsSource::Missing
        },
        FetchBehavior::FetchIfMissing => if cached {
            DefinitionsSource::Cache
        } else {
            DefinitionsSource::Remote
        },
        FetchBehavior::Refetch => DefinitionsSource::Remote,
    }
}

/// The name of asset `i` ends in `suffix`.
pub open spec fn name_ends_with(index: AssetIndex, i: int, suffix: Seq<char>) -> bool {
    is_suffix(encode_utf8(index.objects@[i].0@), encode_utf8(suffix))
}

/// The first asset of the index whose name ends in `sounds.json`: the sound definitions.
pub fn find_sound_definitions(index: &AssetIndex) -> (found: Option<usize>)
    ensures
        match found {
            Some(i) => i < index.objects@.len() && name_ends_with(*index, i as int, "sounds.json"@) && forall|k: int|
                0 <= k < i ==> !name_ends_with(*index, k, "sounds.json"@),
            None => forall|k: int| 0 <= k < index.objects@.len() ==> !name_ends_with(*index, k, "sounds.json"@),
        },
{
    let mut i: usize = 0;
    while i < index.objects.len()
        invariant
            i <= index.objects@.len(),
            forall|k: int| 0 <= k < i ==> !name_ends_with(*index, k, "sounds.json"@),
        decreases index.objects.len() - i,
    {
        if ends_with(index.objects[i].0.as_str(), "sounds.json") {
            return Some(i);
        }
        i += 1;
    }
    None
}

/// `name` is one of `local`.
pub open spec fn is_local(local: Seq<String>, name: Seq<char>) -> bool {
    exists|k: int| 0 <= k < local.len() && (#[trigger] local[k])@ == name
}

/// Whether `name` is one of `local`.
pub fn holds_name(local: &Vec<String>, name: &str) -> (held: bool)
    ensures
        held == is_local(local@, name@),
{
    let mut k: usize = 0;
    while k < local.len()
        invariant
            k <= local@.len(),
            forall|q: int| 0 <= q < k ==> (#[trigger] local@[q])@ != name@,
        decreases local.len() - k,
    {
        if same_text(local[k].as_str(), name) {
            return true;
        }
        k += 1;
    }
    false
}

/// Asset `i` is a sound that has to be fetched: under no circumstances when only the cache
/// is used; every sound when everything is fetched again; else every sound that is not
/// among the `local` names.
pub open spec fn is_wanted(behavior: FetchBehavior, index: AssetIndex, local: Seq<String>, i: int) -> bool {
    &&& 0 <= i < index.objects@.len()
    &&& name_ends_with(index, i, ".ogg"@)
    &&& match behavior {
        FetchBehavior::CacheOnly => false,
        FetchBehavior::Refetch => true,
        FetchBehavior::FetchIfMissing => !is_local(local, index.objects@[i].0@),
    }
}

/// `found` lists, in rising order, exactly the wanted assets among the first `seen`.
pub open spec fn is_wanted_list(
    behavior: FetchBehavior,
    index: AssetIndex,
    local: Seq<String>,
    seen: int,
    found: Seq<usize>,
) -> bool {
    &&& forall|p: int|
        0 <= p < found.len() ==> (#[trigger] found[p]) < seen && is_wanted(
            behavior,
            index,
            local,
            found[p] as int,
        )
    &&& forall|p: int, q: int| 0 <= p < q < found.len() ==> (#[trigger] found[p]) < (#[trigger] found[q])
    &&& forall|i: usize| i < seen && is_wanted(behavior, index, local, i as int) ==> #[trigger] found.contains(i)
}

/// The sounds of the index that have to be fetched, by their place in the index.
/// `local` holds the names of the sounds that the cache holds, written as in the index.
pub fn remote_sounds(behavior: &FetchBehavior, index: &AssetIndex, local: &Vec<String>) -> (found: Vec<usize>)
    ensures
        is_wanted_list(*behavior, *index, local@, index.objects@.len() as int, found@),
{
    let mut found: Vec<usize> = Vec::new();
    let mut i: usize = 0;
    while i < index.objects.len()
        invariant
            i <= index.objects@.len(),
            is_wanted_list(*behavior, *index, local@, i as int, found@),
        decreases index.objects.len() - i,
    {
        let name = index.objects[i].0.as_str();
        let wanted = match behavior {
            FetchBehavior::CacheOnly => false,
            FetchBehavior::Refetch => ends_with(name, ".ogg"),
            FetchBehavior::FetchIfMissing => ends_with(name, ".ogg") && !holds_name(local, name),
        };
        let ghost before = found@;
        if wanted {
            found.push(i);
        }
        proof {
            assert(wanted == is_wanted(*behavior, *index, local@, i as int));
            assert forall|k: usize|
                k < i + 1 && is_wanted(*behavior, *index, local@, k as int) implies #[trigger] found@.contains(
                k,
            ) by {
                if k < i {
                    assert(before.contains(k));
                    let w = choose|w: int| 0 <= w < before.len() && before[w] == k;
                    assert(found@[w] == k);
                } else {
                    assert(found@[before.len() as int] == k);
                }
            }
        }
        i += 1;
    }
    found
}

/// A sound as it is played: its name, and the pitch and volume to play it at.
#[derive(Clone, Debug)]
pub struct Playable<T> {
    pub name: String,
    pub pitch: T,
    pub volume: T,
}

/// The one sound that `definition` always plays, if there is such a sound: a definition
/// with exactly one sound, which is a sound file and not a reference to other definitions.
/// Pitch and volume are `one` where the definition says nothing.
pub open spec fn spec_predictable_sound<T>(definition: SoundDefinition<T>, one: T) -> Option<(Seq<char>, T, T)> {
    if definition.sounds@.len() != 1 {
        None
    } else {
        match definition.sounds@[0] {
            AudioResourceLocation::Partial(name) => Some((name@, one, one)),
            AudioResourceLocation::Full(location) => match location.resource_type {
                Some(kind) if kind@ != "sound"@ => None,
                _ => Some(
                    (
                        location.name@,
                        match location.pitch {
                            Some(pitch) => pitch,
                            None => one,
                        },
                        match location.volume {
                            Some(volume) => volume,
                            None => one,
                        },
                    ),
                ),
            },
        }
    }
}

/// The one sound that `definition` always plays, if there is such a sound.
pub fn predictable_sound<T: Copy>(definition: &SoundDefinition<T>, one: T) -> (sound: Option<Playable<T>>)
    ensures
        match sound {
            Some(playable) => spec_predictable_sound(*definition, one) == Some(
                (playable.name@, playable.pitch, playable.volume),
            ),
            None => spec_predictable_sound(*definition, one) is None,
        },
{
    if definition.sounds.len() != 1 {
        return None;
    }
    match &definition.sounds[0] {
        AudioResourceLocation::Partial(name) => Some(Playable { name: name.clone(), pitch: one, volume: one }),
        AudioResourceLocation::Full(location) => {
            let is_sound = match &location.resource_type {
                Some(kind) => same_text(kind.as_str(), "sound"),
                None => true,
            };
            if !is_sound {
                return None;
            }
            let pitch = match location.pitch {
                Some(pitch) => pitch,
                None => one,
            };
            let volume = match location.volume {
                Some(volume) => volume,
                None => one,
            };
            Some(Playable { name: location.name.clone(), pitch, volume })
        },
    }
}

/// How many samples of a sound are decoded at most before decoding stops: five ticks,
/// a tick counted in whole samples.
pub open spec fn spec_decode_budget(sample_rate: nat) -> nat {
    5 * ((sample_rate * 50) / 1000)
}

/// How many samples of a sound are decoded at most before decoding stops.
pub fn decode_budget(sample_rate: usize) -> (budget: usize)
    ensures
        budget == spec_decode_budget(sample_rate as nat),
{
    5 * (sample_rate / 20)
}

/// `out` is a value of the mean of `left` and `right`: `(left + right) / two`.
pub open spec fn is_mean<T: Scalar>(left: T, right: T, two: T, out: T) -> bool {
    exists|sum: T| #[trigger] is_sum(left, right, sum) && is_quotient(sum, two, out)
}

/// `mono` is a value of the two channels mixed down: sample by sample their mean, as long
/// as the left channel.
pub open spec fn is_downmix<T: Scalar>(left: Seq<T>, right: Seq<T>, two: T, mono: Seq<T>) -> bool {
    &&& mono.len() == left.len()
    &&& forall|i: int| 0 <= i < left.len() ==> is_mean(left[i], right[i], two, #[trigger] mono[i])
}

/// Mixes two channels down to one: sample by sample their mean.
pub fn downmix<T: Scalar>(left: &Vec<T>, right: &Vec<T>, two: T) -> (mono: Vec<T>)
    requires
        left@.len() <= right@.len(),
        arithmetic_is_total::<T>(),
    ensures
        is_downmix(left@, right@, two, mono@),
{
    let mut mono: Vec<T> = Vec::with_capacity(left.len());
    let mut i: usize = 0;
    while i < left.len()
        invariant
            left@.len() <= right@.len(),
            arithmetic_is_total::<T>(),
            i <= left@.len(),
            mono@.len() == i,
            forall|k: int| 0 <= k < i ==> is_mean(left@[k], right@[k], two, #[trigger] mono@[k]),
        decreases left.len() - i,
    {
        let sum = left[i] + right[i];
        let mean = sum / two;
        assert(is_sum(left@[i as int], right@[i as int], sum));
        mono.push(mean);
        i += 1;
    }
    mono
}

/// `after` is `before` with the packet `channels` taken in: its first channel, or the two
/// first channels mixed down where the sound is stereo.
pub open spec fn is_packet_taken<T: Scalar>(
    before: Seq<T>,
    channels: Seq<Vec<T>>,
    stereo: bool,
    two: T,
    after: Seq<T>,
) -> bool {
    let fresh = after.skip(before.len() as int);
    &&& before.len() <= after.len()
    &&& after.take(before.len() as int) == before
    &&& if stereo {
        is_downmix(channels[0]@, channels[1]@, two, fresh)
    } else {
        fresh == channels[0]@
    }
}

/// Takes one decoded packet into `samples`, as long as fewer than `budget` samples are
/// there; says whether it did. Once it says no, decoding stops.
pub fn take_packet<T: Scalar>(
    samples: &mut Vec<T>,
    channels: &Vec<Vec<T>>,
    stereo: bool,
    two: T,
    budget: usize,
) -> (taken: bool)
    requires
        channels@.len() >= 1,
        stereo ==> channels@.len() >= 2 && channels@[0]@.len() <= channels@[1]@.len(),
        arithmetic_is_total::<T>(),
    ensures
        taken == (old(samples)@.len() < budget),
        !taken ==> final(samples)@ == old(samples)@,
        taken ==> is_packet_taken(old(samples)@, channels@, stereo, two, final(samples)@),
{
    if samples.len() >= budget {
        return false;
    }
    let fresh = if stereo {
        downmix(&channels[0], &channels[1], two)
    } else {
        crate::audio::copy_samples(&channels[0])
    };
    let mut i: usize = 0;
    while i < fresh.len()
        invariant
            i <= fresh@.len(),
            samples@ == old(samples)@ + fresh@.take(i as int),
        decreases fresh.len() - i,
    {
        samples.push(fresh[i]);
        assert(samples@ =~= old(samples)@ + fresh@.take(i + 1));
        i += 1;
    }
    proof {
        assert(fresh@.take(i as int) =~= fresh@);
        assert(samples@.skip(old(samples)@.len() as int) =~= fresh@);
        assert(samples@.take(old(samples)@.len() as int) =~= old(samples)@);
    }
    true
}

} // verus!
