//! The distance map file: a schema version, the size of the signal map it was
//! made for, an optional target id, and a distance per signal id, keyed by the
//! id's decimal text.

use std::collections::HashMap;
use vstd::prelude::*;

use crate::decimal::{decimal, decimal_text, lemma_parse_decimal_roundtrip, parse_usize, parsed_usize};

verus! {

broadcast use vstd::std_specs::hash::group_hash_axioms;

/// Number of entries of the fuzzer's signal map.
pub const MAP_SIZE: usize = 65536;

/// The distance file schema this loader reads.
pub const SCHEMA_VERSION: u32 = 1;

/// The fields of a distance file, as its JSON decoder hands them over.
/// `distances` lists the file's `"id": distance` pairs in the order in which
/// they are to be checked.
#[derive(Debug)]
pub struct DistanceFile {
    pub version: u32,
    pub target_id: Option<u32>,
    pub map_size: usize,
    pub distances: Vec<(String, u32)>,
}

/// Why a distance file was refused.
#[derive(Debug)]
pub enum DistanceMapError {
    /// The file's schema version is not `SCHEMA_VERSION`.
    UnsupportedVersion(u32),
    /// The file was made for a signal map of another size.
    MapSizeMismatch(usize),
    /// A key is not the decimal text of an id.
    NonNumericKey(String),
    /// A key names an id that is not below `MAP_SIZE`.
    KeyOutOfRange(usize),
}

/// What is wrong with the entry `e`, if anything.
pub open spec fn entry_error(e: (String, u32)) -> Option<DistanceMapError> {
    match parsed_usize(e.0@) {
        None => Some(DistanceMapError::NonNumericKey(e.0)),
        Some(id) => if id >= MAP_SIZE {
            Some(DistanceMapError::KeyOutOfRange(id))
        } else {
            None
        },
    }
}

/// The entries checked in order: the error of the first bad entry, or the map
/// from each id to its distance, where a later entry for the same id wins.
pub open spec fn checked_entries(es: Seq<(String, u32)>) -> Result<Map<usize, u32>, DistanceMapError>
    decreases es.len(),
{
    if es.len() == 0 {
        Ok(Map::empty())
    } else {
        match checked_entries(es.drop_last()) {
            Err(e) => Err(e),
            Ok(m) => match entry_error(es.last()) {
                Some(e) => Err(e),
                None => Ok(m.insert(parsed_usize(es.last().0@).unwrap(), es.last().1)),
            },
        }
    }
}

/// What loading `file` gives: the version is checked first, then the map
/// size, then the entries.
pub open spec fn loaded_distances(file: DistanceFile) -> Result<
    (Map<usize, u32>, Option<u32>),
    DistanceMapError,
> {
    if file.version != SCHEMA_VERSION {
        Err(DistanceMapError::UnsupportedVersion(file.version))
    } else if file.map_size != MAP_SIZE {
        Err(DistanceMapError::MapSizeMismatch(file.map_size))
    } else {
        match checked_entries(file.distances@) {
            Err(e) => Err(e),
            Ok(m) => Ok((m, file.target_id)),
        }
    }
}

/// The text of an error, as the fuzzer reports it.
pub open spec fn error_text(e: DistanceMapError) -> Seq<char> {
    match e {
        DistanceMapError::UnsupportedVersion(v) => "unsupported distance map version "@
            + decimal_text(v as nat) + " (expected "@ + decimal_text(SCHEMA_VERSION as nat)
            + ")"@,
        DistanceMapError::MapSizeMismatch(n) => "distance map map_size is "@ + decimal_text(
            n as nat,
        ) + " but the fuzzer map size is "@ + decimal_text(MAP_SIZE as nat),
        DistanceMapError::NonNumericKey(k) => "non-numeric distance key '"@ + k@ + "'"@,
        DistanceMapError::KeyOutOfRange(id) => "distance key "@ + decimal_text(id as nat)
            + " is not below the map size "@ + decimal_text(MAP_SIZE as nat),
    }
}

impl DistanceMapError {
    /// The text of the error.
    pub fn message(&self) -> (s: String)
        ensures
            s@ == error_text(*self),
    {
        match self {
            DistanceMapError::UnsupportedVersion(v) => {
                let mut s = String::from_str("unsupported distance map version ");
                s.append(decimal(*v as u64).as_str());
                s.append(" (expected ");
                s.append(decimal(SCHEMA_VERSION as u64).as_str());
                s.append(")");
                s
            },
            DistanceMapError::MapSizeMismatch(n) => {
                let mut s = String::from_str("distance map map_size is ");
                s.append(decimal(*n as u64).as_str());
                s.append(" but the fuzzer map size is ");
                s.append(decimal(MAP_SIZE as u64).as_str());
                s
            },
            DistanceMapError::NonNumericKey(k) => {
                let mut s = String::from_str("non-numeric distance key '");
                s.append(k.as_str());
                s.append("'");
                s
            },
            DistanceMapError::KeyOutOfRange(id) => {
                let mut s = String::from_str("distance key ");
                s.append(decimal(*id as u64).as_str());
                s.append(" is not below the map size ");
                s.append(decimal(MAP_SIZE as u64).as_str());
                s
            },
        }
    }
}

/// Checks a decoded distance file and builds the map from signal id to
/// distance. Refuses a wrong version, a map size other than `MAP_SIZE`, and
/// the first key (in the order of `file.distances`) that is not an id below
/// `MAP_SIZE`.
pub fn parse_distance_file(file: &DistanceFile) -> (r: Result<
    (HashMap<usize, u32>, Option<u32>),
    DistanceMapError,
>)
    ensures
        match r {
            Ok((m, t)) => loaded_distances(*file) == Ok::<
                (Map<usize, u32>, Option<u32>),
                DistanceMapError,
            >((m@, t)),
            Err(e) => loaded_distances(*file) == Err::<
                (Map<usize, u32>, Option<u32>),
                DistanceMapError,
            >(e),
        },
{
    if file.version != SCHEMA_VERSION {
        return Err(DistanceMapError::UnsupportedVersion(file.version));
    }
    if file.map_size != MAP_SIZE {
        return Err(DistanceMapError::MapSizeMismatch(file.map_size));
    }
    let mut distances: HashMap<usize, u32> = HashMap::new();
    let n = file.distances.len();
    let mut i: usize = 0;
    while i < n
        invariant
            n == file.distances@.len(),
            i <= n,
            file.version == SCHEMA_VERSION,
            file.map_size == MAP_SIZE,
            checked_entries(file.distances@.take(i as int)) == Ok::<
                Map<usize, u32>,
                DistanceMapError,
            >(distances@),
        decreases n - i,
    {
        let key = &file.distances[i].0;
        let dist = file.distances[i].1;
        let ghost es = file.distances@.take(i + 1);
        assert(es.drop_last() =~= file.distances@.take(i as int));
        assert(es.last() == file.distances@[i as int]);
        match parse_usize(key.as_str()) {
            None => {
                let k = key.clone();
                assert(entry_error(es.last()) == Some(DistanceMapError::NonNumericKey(k)));
                assert(checked_entries(es) == Err::<Map<usize, u32>, DistanceMapError>(
                    DistanceMapError::NonNumericKey(k),
                ));
                proof {
                    lemma_checked_entries_err_extends(file.distances@, i as int + 1);
                }
                return Err(DistanceMapError::NonNumericKey(k));
            },
            Some(id) => {
                if id >= MAP_SIZE {
                    assert(checked_entries(es) == Err::<Map<usize, u32>, DistanceMapError>(
                        DistanceMapError::KeyOutOfRange(id),
                    ));
                    proof {
                        lemma_checked_entries_err_extends(file.distances@, i as int + 1);
                    }
                    return Err(DistanceMapError::KeyOutOfRange(id));
                }
                distances.insert(id, dist);
            },
        }
        i = i + 1;
    }
    assert(file.distances@.take(n as int) =~= file.distances@);
    Ok((distances, file.target_id))
}

/// Once a prefix of the entries is refused, the whole list is refused with
/// the same error.
proof fn lemma_checked_entries_err_extends(es: Seq<(String, u32)>, k: int)
    requires
        0 <= k <= es.len(),
        checked_entries(es.take(k)) is Err,
    ensures
        checked_entries(es) == checked_entries(es.take(k)),
    decreases es.len() - k,
{
    if k < es.len() {
        let next = es.take(k + 1);
        assert(next.drop_last() =~= es.take(k));
        lemma_checked_entries_err_extends(es, k + 1);
    } else {
        assert(es.take(k) =~= es);
    }
}

/// The id that the key of entry `e` names (meaningful where the key parses).
pub open spec fn entry_id(e: (String, u32)) -> usize {
    parsed_usize(e.0@).unwrap()
}

/// Checking the entries succeeds exactly when every entry is good, and then
/// the map holds an id exactly when some entry names it, every id is below
/// `MAP_SIZE`, and each id maps to the distance of the last entry naming it.
pub proof fn lemma_checked_entries(es: Seq<(String, u32)>)
    ensures
        checked_entries(es) is Ok <==> forall|i: int|
            0 <= i < es.len() ==> (#[trigger] entry_error(es[i])) is None,
        checked_entries(es) is Ok ==> {
            let m = checked_entries(es)->Ok_0;
            &&& forall|k: usize| #[trigger] m.contains_key(k) ==> k < MAP_SIZE
            &&& forall|k: usize| #[trigger]
                m.contains_key(k) <==> exists|i: int|
                    0 <= i < es.len() && entry_id(#[trigger] es[i]) == k
            &&& forall|i: int|
                0 <= i < es.len() && (forall|j: int|
                    i < j < es.len() ==> entry_id(#[trigger] es[j]) != entry_id(es[i]))
                    ==> m[entry_id(#[trigger] es[i])] == es[i].1
        },
    decreases es.len(),
{
    if es.len() > 0 {
        let p = es.drop_last();
        lemma_checked_entries(p);
        assert forall|i: int| 0 <= i < p.len() implies p[i] == es[i] by {}
        if checked_entries(p) is Ok {
            let m = checked_entries(p)->Ok_0;
            let last = es.last();
            if entry_error(last) is None {
                let m2 = checked_entries(es)->Ok_0;
                assert(m2 == m.insert(entry_id(last), last.1));
                assert forall|k: usize| #[trigger]
                    m2.contains_key(k) <==> exists|i: int|
                        0 <= i < es.len() && entry_id(#[trigger] es[i]) == k by {
                    if m2.contains_key(k) {
                        if k == entry_id(last) {
                            assert(entry_id(es[es.len() - 1]) == k);
                        } else {
                            assert(m.contains_key(k));
                            let i = choose|i: int| 0 <= i < p.len() && entry_id(#[trigger] p[i]) == k;
                            assert(entry_id(es[i]) == k);
                        }
                    }
                    if exists|i: int| 0 <= i < es.len() && entry_id(#[trigger] es[i]) == k {
                        let i = choose|i: int| 0 <= i < es.len() && entry_id(#[trigger] es[i]) == k;
                        if i < p.len() {
                            assert(entry_id(p[i]) == k);
                        }
                    }
                }
                assert forall|i: int|
                    0 <= i < es.len() && (forall|j: int|
                        i < j < es.len() ==> entry_id(#[trigger] es[j]) != entry_id(es[i]))
                        implies m2[entry_id(#[trigger] es[i])] == es[i].1 by {
                    if i < p.len() {
                        assert(entry_id(es[es.len() - 1]) != entry_id(es[i]));
                        assert forall|j: int| i < j < p.len() implies entry_id(
                            #[trigger] p[j],
                        ) != entry_id(p[i]) by {
                            assert(entry_id(es[j]) != entry_id(es[i]));
                        }
                    }
                }
                assert forall|i: int| 0 <= i < es.len() implies (#[trigger] entry_error(
                    es[i],
                )) is None by {
                    if i < p.len() {
                        assert(entry_error(p[i]) is None);
                    }
                }
            } else {
                assert(entry_error(es[es.len() - 1]) is Some);
            }
        } else {
            let i0 = choose|i: int| 0 <= i < p.len() && (#[trigger] entry_error(p[i])) is Some;
            assert(entry_error(es[i0]) is Some);
        }
    }
}

/// The loader accepts a file exactly when its version is `SCHEMA_VERSION`,
/// its map size is `MAP_SIZE`, and every key is the decimal text of an id
/// below `MAP_SIZE`; what it loads maps each id named by a key, and no other,
/// to the distance of the last entry naming it, and keeps the target id.
pub proof fn lemma_loader_accepts_exactly(file: DistanceFile)
    ensures
        loaded_distances(file) is Ok <==> {
            &&& file.version == SCHEMA_VERSION
            &&& file.map_size == MAP_SIZE
            &&& forall|i: int|
                0 <= i < file.distances@.len() ==> (#[trigger] entry_error(
                    file.distances@[i],
                )) is None
        },
        loaded_distances(file) is Ok ==> {
            let (m, t) = loaded_distances(file)->Ok_0;
            let es = file.distances@;
            &&& t == file.target_id
            &&& forall|k: usize| #[trigger] m.contains_key(k) ==> k < MAP_SIZE
            &&& forall|k: usize| #[trigger]
                m.contains_key(k) <==> exists|i: int|
                    0 <= i < es.len() && entry_id(#[trigger] es[i]) == k
            &&& forall|i: int|
                0 <= i < es.len() && (forall|j: int|
                    i < j < es.len() ==> entry_id(#[trigger] es[j]) != entry_id(es[i]))
                    ==> m[entry_id(#[trigger] es[i])] == es[i].1
        },
{
    lemma_checked_entries(file.distances@);
}

/// A file with another schema version is refused for its version, whatever
/// else it holds.
pub proof fn lemma_loader_rejects_wrong_version(file: DistanceFile)
    requires
        file.version != SCHEMA_VERSION,
    ensures
        loaded_distances(file) == Err::<(Map<usize, u32>, Option<u32>), DistanceMapError>(
            DistanceMapError::UnsupportedVersion(file.version),
        ),
{
}

/// A file of the current version made for another map size is refused for
/// its map size, whatever its entries hold.
pub proof fn lemma_loader_rejects_map_size_mismatch(file: DistanceFile)
    requires
        file.version == SCHEMA_VERSION,
        file.map_size != MAP_SIZE,
    ensures
        loaded_distances(file) == Err::<(Map<usize, u32>, Option<u32>), DistanceMapError>(
            DistanceMapError::MapSizeMismatch(file.map_size),
        ),
{
}

/// An entry is refused exactly when its key is not the text of a `usize` or
/// names an id not below `MAP_SIZE`, and the refusal names the key or the id.
pub proof fn lemma_entry_refused_exactly(e: (String, u32))
    ensures
        entry_error(e) is None <==> parsed_usize(e.0@) is Some && parsed_usize(e.0@)->Some_0
            < MAP_SIZE,
        parsed_usize(e.0@) is None ==> entry_error(e) == Some(
            DistanceMapError::NonNumericKey(e.0),
        ),
        parsed_usize(e.0@) is Some && parsed_usize(e.0@)->Some_0 >= MAP_SIZE ==> entry_error(e)
            == Some(DistanceMapError::KeyOutOfRange(parsed_usize(e.0@)->Some_0)),
{
}

/// The decimal text of every id below `MAP_SIZE`, 0 included, is an accepted
/// key for that id.
pub proof fn lemma_ids_below_map_size_accepted(key: String, d: u32, n: usize)
    requires
        n < MAP_SIZE,
        key@ == decimal_text(n as nat),
    ensures
        entry_error((key, d)) is None,
        entry_id((key, d)) == n,
{
    lemma_parse_decimal_roundtrip(n);
}

/// A file of the current version and map size whose keys are all decimal
/// texts of ids below `MAP_SIZE` is accepted, and every such id is loaded.
pub proof fn lemma_file_of_valid_ids_accepted(file: DistanceFile)
    requires
        file.version == SCHEMA_VERSION,
        file.map_size == MAP_SIZE,
        forall|i: int|
            0 <= i < file.distances@.len() ==> exists|n: usize|
                n < MAP_SIZE && (#[trigger] file.distances@[i]).0@ == decimal_text(n as nat),
    ensures
        loaded_distances(file) is Ok,
        forall|i: int|
            0 <= i < file.distances@.len() ==> (loaded_distances(file)->Ok_0).0.contains_key(
                entry_id(#[trigger] file.distances@[i]),
            ),
{
    let es = file.distances@;
    assert forall|i: int| 0 <= i < es.len() implies (#[trigger] entry_error(es[i])) is None by {
        let n = choose|n: usize| n < MAP_SIZE && es[i].0@ == decimal_text(n as nat);
        lemma_ids_below_map_size_accepted(es[i].0, es[i].1, n);
    }
    lemma_loader_accepts_exactly(file);
    let m = (loaded_distances(file)->Ok_0).0;
    assert forall|i: int| 0 <= i < es.len() implies m.contains_key(
        entry_id(#[trigger] es[i]),
    ) by {
        assert(exists|j: int| 0 <= j < es.len() && entry_id(#[trigger] es[j]) == entry_id(es[i]));
    }
}

} // verus!
