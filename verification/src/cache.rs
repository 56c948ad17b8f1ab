//! The stored form of an index and the view that reads it in place.
//!
//! An index is stored as an `rkyv` archive of a hash map from letters to
//! word lists. Reading it back copies the bytes into an aligned buffer,
//! validates them, and answers lookups from the archived map where it lies:
//! no entry is copied out.
//!
//! What `rkyv` does is not proved here. The functions that call it are
//! small and private, and each says above itself what is assumed of the
//! call; everything else in the module is proved from those assumptions.

use crate::index::{contents_of, keys_ascend, Index};
use crate::letter_set::LetterSet;
use crate::lookup::{found_under, SignatureLookup};
use crate::order::spelled_out;
use rkyv::collections::ArchivedHashMap;
use rkyv::string::ArchivedString;
use rkyv::vec::ArchivedVec;
use rkyv::AlignedVec;
use std::collections::HashMap;
use vstd::prelude::*;
use vstd::utf8::encode_utf8;

verus! {

// The types of `rkyv` that values of this module hold or borrow. Nothing is
// known of what is inside them but what the functions below state.
#[verifier::external_type_specification]
#[verifier::external_body]
pub struct ExAlignedVec(AlignedVec);

#[verifier::external_type_specification]
#[verifier::external_body]
#[verifier::reject_recursive_types(K)]
#[verifier::reject_recursive_types(V)]
pub struct ExArchivedHashMap<K, V>(ArchivedHashMap<K, V>);

#[verifier::external_type_specification]
#[verifier::external_body]
#[verifier::reject_recursive_types(T)]
pub struct ExArchivedVec<T>(ArchivedVec<T>);

#[verifier::external_type_specification]
#[verifier::external_body]
pub struct ExArchivedString(ArchivedString);

/// The bytes that an aligned buffer holds.
pub uninterp spec fn aligned_bytes(buffer: AlignedVec) -> Seq<u8>;

/// The mapping that an archived hash map holds: each key's bytes mapped to
/// what the strings of its value spell.
pub uninterp spec fn archived_map(
    map: ArchivedHashMap<ArchivedVec<u8>, ArchivedVec<ArchivedString>>,
) -> Map<Seq<u8>, Seq<Seq<char>>>;

/// What the strings of an archived list spell, in order.
pub uninterp spec fn archived_words(words: ArchivedVec<ArchivedString>) -> Seq<Seq<char>>;

/// What validation finds at the root of `bytes` held in an aligned buffer:
/// the mapping of the hash map archived there, or `None` where the bytes are
/// not a valid archive of one.
pub uninterp spec fn archive_root(bytes: Seq<u8>) -> Option<Map<Seq<u8>, Seq<Seq<char>>>>;

/// Why an index could not be stored or read back.
#[derive(Debug)]
pub enum CacheError {
    /// The index is too large for the stored form.
    TooLarge,
    /// Writing the stored form failed; the message says how.
    Unwritable(String),
    /// The bytes are not a valid stored index; the message says why.
    Invalid(String),
}

/// The most bytes that a stored index may take. Offsets inside it are kept
/// in 32 bits with a sign, and the buffer that holds it for reading takes
/// 15 bytes less than the greatest `isize` at most.
pub const ARCHIVE_LIMIT: usize = 0x7fff_fff0;

/// Bytes allowed for what the stored form holds besides its entries.
pub const ROOT_BYTES: usize = 32;

/// Bytes allowed for an entry besides its letters and words.
pub const ENTRY_BYTES: usize = 32;

/// Bytes allowed for a word besides its encoding.
pub const WORD_BYTES: usize = 16;

/// An upper bound on the bytes that a list of words takes in stored form.
pub open spec fn words_bound(words: Seq<String>) -> nat
    decreases words.len(),
{
    if words.len() == 0 {
        0
    } else {
        words_bound(words.drop_last()) + WORD_BYTES as nat + encode_utf8(words.last()@).len()
    }
}

/// An upper bound on the bytes that the entries take in stored form.
pub open spec fn entries_bound(entries: Seq<LetterSet>) -> nat
    decreases entries.len(),
{
    if entries.len() == 0 {
        0
    } else {
        entries_bound(entries.drop_last()) + ENTRY_BYTES as nat + entries.last().letters@.len()
            + words_bound(entries.last().words@)
    }
}

/// An upper bound on the bytes that the stored form of the entries takes.
pub open spec fn archive_bound(entries: Seq<LetterSet>) -> nat {
    ROOT_BYTES as nat + entries_bound(entries)
}

/// Whether the stored form of the entries is sure to stay within
/// `ARCHIVE_LIMIT`.
pub open spec fn fits_archive(entries: Seq<LetterSet>) -> bool {
    archive_bound(entries) <= ARCHIVE_LIMIT
}

/// The bound on a list of words grows with the list.
proof fn lemma_words_bound_grows(words: Seq<String>, k: int)
    requires
        0 <= k <= words.len(),
    ensures
        words_bound(words.take(k)) <= words_bound(words),
    decreases words.len(),
{
    if k == words.len() {
        assert(words.take(k) =~= words);
    } else {
        assert(words.drop_last().take(k) =~= words.take(k));
        lemma_words_bound_grows(words.drop_last(), k);
    }
}

/// The bound on a list of entries grows with the list.
proof fn lemma_entries_bound_grows(entries: Seq<LetterSet>, k: int)
    requires
        0 <= k <= entries.len(),
    ensures
        entries_bound(entries.take(k)) <= entries_bound(entries),
    decreases entries.len(),
{
    if k == entries.len() {
        assert(entries.take(k) =~= entries);
    } else {
        assert(entries.drop_last().take(k) =~= entries.take(k));
        lemma_entries_bound_grows(entries.drop_last(), k);
    }
}

/// Adds the bound of a list of words to `used`, as long as the sum stays
/// within `ARCHIVE_LIMIT`.
fn add_words_bound(words: &Vec<String>, used: usize) -> (total: Option<usize>)
    requires
        used <= ARCHIVE_LIMIT,
    ensures
        match total {
            Some(sum) => sum == used + words_bound(words@) && sum <= ARCHIVE_LIMIT,
            None => used + words_bound(words@) > ARCHIVE_LIMIT,
        },
{
    let mut total = used;
    let mut k: usize = 0;
    while k < words.len()
        invariant
            k <= words.len(),
            total == used + words_bound(words@.take(k as int)),
            total <= ARCHIVE_LIMIT,
        decreases words.len() - k,
    {
        let size = words[k].as_str().as_bytes().len();
        proof {
            assert(words@.take(k + 1).drop_last() =~= words@.take(k as int));
            assert(words@.take(k + 1).last() == words@[k as int]);
            lemma_words_bound_grows(words@, k + 1);
        }
        if size > ARCHIVE_LIMIT - WORD_BYTES || total > ARCHIVE_LIMIT - WORD_BYTES - size {
            return None;
        }
        total = total + WORD_BYTES + size;
        k = k + 1;
    }
    assert(words@.take(k as int) =~= words@);
    Some(total)
}

/// Computes the upper bound on the stored form of the entries, as long as
/// it stays within `ARCHIVE_LIMIT`.
pub fn bound_within_limit(entries: &Vec<LetterSet>) -> (bound: Option<usize>)
    ensures
        match bound {
            Some(bytes) => bytes == archive_bound(entries@) && fits_archive(entries@),
            None => !fits_archive(entries@),
        },
{
    let mut total: usize = ROOT_BYTES;
    let mut i: usize = 0;
    while i < entries.len()
        invariant
            i <= entries.len(),
            total == ROOT_BYTES + entries_bound(entries@.take(i as int)),
            total <= ARCHIVE_LIMIT,
        decreases entries.len() - i,
    {
        let size = entries[i].letters.len();
        proof {
            assert(entries@.take(i + 1).drop_last() =~= entries@.take(i as int));
            assert(entries@.take(i + 1).last() == entries@[i as int]);
            lemma_entries_bound_grows(entries@, i + 1);
        }
        if size > ARCHIVE_LIMIT - ENTRY_BYTES || total > ARCHIVE_LIMIT - ENTRY_BYTES - size {
            return None;
        }
        match add_words_bound(&entries[i].words, total + ENTRY_BYTES + size) {
            Some(sum) => {
                total = sum;
            },
            None => {
                return None;
            },
        }
        i = i + 1;
    }
    assert(entries@.take(i as int) =~= entries@);
    Some(total)
}

/// `rkyv::to_bytes` on the entries as a hash map from letters to words: the
/// bytes returned are a valid archive, and the map that validation finds in
/// them holds exactly the entries. A failure is handed on as its message.
///
/// The archive holds, for each entry, its letters, 16 bytes, 4 bytes of the
/// hash index and up to 3 of padding, and for each word 8 bytes and, where
/// the word is longer than 7 bytes, its encoding; around them 12 bytes and
/// up to 9 of padding. `archive_bound` is no less than that sum, and
/// `fits_archive` keeps every offset within the 32 bits that the archive
/// has for one. What validation finds goes by the byte order and the word
/// size of the machine, so the promise is for bytes read where they were
/// written.
#[verifier::external_body]
fn encode_entries(entries: &Vec<LetterSet>) -> (encoded: Result<Vec<u8>, String>)
    requires
        keys_ascend(entries@),
        fits_archive(entries@),
    ensures
        encoded matches Ok(bytes) ==> archive_root(bytes@) == Some(contents_of(entries@))
            && bytes@.len() <= archive_bound(entries@),
{
    let map: HashMap<Vec<u8>, Vec<String>> = entries.iter().map(
        |entry| (entry.letters.clone(), entry.words.clone()),
    ).collect();
    match rkyv::to_bytes::<_, 256>(&map) {
        Ok(bytes) => Ok(bytes.into_vec()),
        Err(error) => Err(error.to_string()),
    }
}

/// `AlignedVec::extend_from_slice` on a new buffer: the buffer holds a copy
/// of the bytes. A buffer cannot grow beyond 15 bytes less than the
/// greatest `isize`, so longer input is left out.
#[verifier::external_body]
fn aligned_copy(bytes: &[u8]) -> (buffer: AlignedVec)
    requires
        bytes@.len() <= ARCHIVE_LIMIT,
    ensures
        aligned_bytes(buffer) == bytes@,
{
    let mut buffer = AlignedVec::new();
    buffer.extend_from_slice(bytes);
    buffer
}

/// `rkyv::check_archived_root` for a hash map from byte strings to lists of
/// strings: validates the bytes and, where they are valid, gives the
/// archived map that lies in them. The error is handed on as its message.
#[verifier::external_body]
fn checked_root<'a>(buffer: &'a AlignedVec) -> (root: Result<
    &'a ArchivedHashMap<ArchivedVec<u8>, ArchivedVec<ArchivedString>>,
    String,
>)
    ensures
        match root {
            Ok(map) => archive_root(aligned_bytes(*buffer)) == Some(archived_map(*map)),
            Err(_) => archive_root(aligned_bytes(*buffer)) is None,
        },
{
    match rkyv::check_archived_root::<HashMap<Vec<u8>, Vec<String>>>(buffer.as_slice()) {
        Ok(map) => Ok(map),
        Err(error) => Err(error.to_string()),
    }
}

/// `ArchivedHashMap::is_empty`: whether the map has no entry.
#[verifier::external_body]
fn archived_map_is_empty(
    map: &ArchivedHashMap<ArchivedVec<u8>, ArchivedVec<ArchivedString>>,
) -> (empty: bool)
    ensures
        empty <==> forall|key: Seq<u8>| !archived_map(*map).contains_key(key),
{
    map.is_empty()
}

/// `ArchivedHashMap::get` with a byte string for the key: the value stored
/// under exactly that key, if there is one.
#[verifier::external_body]
fn archived_map_get<'a>(
    map: &'a ArchivedHashMap<ArchivedVec<u8>, ArchivedVec<ArchivedString>>,
    key: &[u8],
) -> (value: Option<&'a ArchivedVec<ArchivedString>>)
    ensures
        match value {
            Some(words) => archived_map(*map).contains_key(key@) && archived_map(*map)[key@]
                == archived_words(*words),
            None => !archived_map(*map).contains_key(key@),
        },
{
    map.get(key)
}

/// `ArchivedVec::len`: the number of strings in an archived list.
#[verifier::external_body]
fn archived_words_len(words: &ArchivedVec<ArchivedString>) -> (n: usize)
    ensures
        n == archived_words(*words).len(),
{
    words.len()
}

/// Indexing an `ArchivedVec` and `ArchivedString::as_str`: the string at
/// position `i` of an archived list, borrowed from the archive.
#[verifier::external_body]
fn archived_word<'a>(words: &'a ArchivedVec<ArchivedString>, i: usize) -> (word: &'a str)
    requires
        i < archived_words(*words).len(),
    ensures
        word@ == archived_words(*words)[i as int],
{
    words[i].as_str()
}

/// The bytes of a stored index, held so that they can be read in place.
pub struct CacheImage {
    buffer: AlignedVec,
}

/// A read-only view of the index that lies in a `CacheImage`. It borrows the
/// image and copies no entry.
pub struct ArchivedIndex<'a> {
    map: &'a ArchivedHashMap<ArchivedVec<u8>, ArchivedVec<ArchivedString>>,
}

impl CacheImage {
    /// The bytes of the image.
    pub closed spec fn bytes(&self) -> Seq<u8> {
        aligned_bytes(self.buffer)
    }

    /// Takes the bytes of a stored index as they were read. More than
    /// `ARCHIVE_LIMIT` bytes are no stored index and are refused with
    /// `CacheError::TooLarge`.
    pub fn from_bytes(bytes: &[u8]) -> (image: Result<Self, CacheError>)
        ensures
            match image {
                Ok(image) => image.bytes() == bytes@ && bytes@.len() <= ARCHIVE_LIMIT,
                Err(error) => error is TooLarge && bytes@.len() > ARCHIVE_LIMIT,
            },
    {
        if bytes.len() > ARCHIVE_LIMIT {
            Err(CacheError::TooLarge)
        } else {
            Ok(CacheImage { buffer: aligned_copy(bytes) })
        }
    }

    /// The image of an index: its stored form, ready to be read. It fails
    /// where `store` fails.
    pub fn of_index(index: &Index) -> (image: Result<Self, CacheError>)
        requires
            index.wf(),
        ensures
            image matches Ok(image) ==> image.holds() == Some(index@),
            image matches Err(error) ==> (error is TooLarge <==> !fits_archive(index.entries())),
    {
        match store(index) {
            Ok(bytes) => CacheImage::from_bytes(bytes.as_slice()),
            Err(error) => Err(error),
        }
    }

    /// The mapping that lies in the image, where its bytes are a valid
    /// stored index.
    pub open spec fn holds(&self) -> Option<Map<Seq<u8>, Seq<Seq<char>>>> {
        archive_root(self.bytes())
    }

    /// Validates the image and gives a view of the index in it. Bytes that
    /// are no valid stored index (cut short, damaged, of another kind) are
    /// refused with `CacheError::Invalid`.
    pub fn view(&self) -> (view: Result<ArchivedIndex<'_>, CacheError>)
        ensures
            match view {
                Ok(index) => self.holds() == Some(index.contents()),
                Err(error) => self.holds() is None && error is Invalid,
            },
    {
        match checked_root(&self.buffer) {
            Ok(map) => Ok(ArchivedIndex { map }),
            Err(message) => Err(CacheError::Invalid(message)),
        }
    }
}

impl<'a> SignatureLookup for ArchivedIndex<'a> {
    open spec fn valid(&self) -> bool {
        true
    }

    closed spec fn contents(&self) -> Map<Seq<u8>, Seq<Seq<char>>> {
        archived_map(*self.map)
    }

    fn is_empty(&self) -> (empty: bool) {
        let empty = archived_map_is_empty(self.map);
        proof {
            if empty {
                assert forall|key: Seq<u8>| !self.contents().contains_key(key) by {
                    assert(!archived_map(*self.map).contains_key(key));
                }
            } else {
                let key = choose|key: Seq<u8>| archived_map(*self.map).contains_key(key);
                assert(self.contents().contains_key(key));
            }
        }
        empty
    }

    fn append_matches<'b>(&'b self, key: &[u8], out: &mut Vec<&'b str>) {
        match archived_map_get(self.map, key) {
            Some(words) => {
                let ghost start = out@;
                let n = archived_words_len(words);
                let mut i: usize = 0;
                while i < n
                    invariant
                        i <= n,
                        n == archived_words(*words).len(),
                        spelled_out(out@) == spelled_out(start) + archived_words(*words).take(
                            i as int,
                        ),
                    decreases n - i,
                {
                    let ghost so_far = out@;
                    let word = archived_word(words, i);
                    out.push(word);
                    assert(spelled_out(out@) =~= spelled_out(so_far).push(word@));
                    assert(archived_words(*words).take(i + 1) =~= archived_words(*words).take(
                        i as int,
                    ).push(word@));
                    i = i + 1;
                }
                assert(archived_words(*words).take(i as int) =~= archived_words(*words));
            },
            None => {
                assert(spelled_out(out@) + Seq::<Seq<char>>::empty() =~= spelled_out(out@));
            },
        }
    }
}

/// What `store` returns for an outcome of the encoding: the bytes as they
/// are, a failure as `CacheError::Unwritable` with its message.
pub fn encoded_outcome(encoded: Result<Vec<u8>, String>) -> (stored: Result<Vec<u8>, CacheError>)
    ensures
        match encoded {
            Ok(bytes) => stored == Ok::<Vec<u8>, CacheError>(bytes),
            Err(message) => stored == Err::<Vec<u8>, CacheError>(CacheError::Unwritable(message)),
        },
{
    match encoded {
        Ok(bytes) => Ok(bytes),
        Err(message) => Err(CacheError::Unwritable(message)),
    }
}

/// Puts an index into its stored form: bytes from which `CacheImage::view`
/// reads the same mapping back. An index whose stored form might pass
/// `ARCHIVE_LIMIT` is refused with `CacheError::TooLarge`, and only such a
/// one; a failure of the encoding is reported as `CacheError::Unwritable`.
pub fn store(index: &Index) -> (stored: Result<Vec<u8>, CacheError>)
    requires
        index.wf(),
    ensures
        stored matches Ok(bytes) ==> archive_root(bytes@) == Some(index@) && bytes@.len()
            <= ARCHIVE_LIMIT,
        stored matches Err(error) ==> (error is TooLarge <==> !fits_archive(index.entries())),
        stored is Ok ==> fits_archive(index.entries()),
{
    let entries = index.entry_list();
    if bound_within_limit(entries).is_none() {
        return Err(CacheError::TooLarge);
    }
    proof {
        index.lemma_wf();
    }
    encoded_outcome(encode_entries(entries))
}

/// Round trip: an index that is stored and read back gives, for every key,
/// the words it gave before, in the same order. The three premises are what
/// `store` promises of its bytes, `CacheImage::from_bytes` of its image and
/// `CacheImage::view` of a view it returns; the first conclusion says that
/// `view` does return one.
pub proof fn lemma_round_trip(
    index: Index,
    bytes: Seq<u8>,
    image: CacheImage,
    view: ArchivedIndex<'_>,
    key: Seq<u8>,
)
    requires
        archive_root(bytes) == Some(index@),
        image.bytes() == bytes,
        image.holds() is Some ==> image.holds() == Some(view.contents()),
    ensures
        image.holds() is Some,
        view.contents() == index@,
        found_under(view.contents(), key) == found_under(index@, key),
{
}

} // verus!
