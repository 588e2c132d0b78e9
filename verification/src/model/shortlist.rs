//! The binary lexical shortlist: which target tokens are worth scoring for a
//! given source text.

use crate::bytes::{le32, le64, parts_keep_numbers, word32, word64};
use crate::error::{LoadError, LoadFault};
use crate::message::{decimal, decimal_text, decimal_usize, prefixed_hex, prefixed_hex_text};
use vstd::prelude::*;
use vstd::string::*;

verus! {

/// First eight bytes of a binary shortlist.
pub const BINARY_SHORTLIST_MAGIC: u64 = 0xF11A_48D5_0134_17F5;

/// Number of bytes before the offset table.
pub const HEADER_LEN: usize = 48;

/// A lexical shortlist.
///
/// Source token `s` proposes the target tokens
/// `target_ids[offsets[s]..offsets[s + 1]]`.
pub struct Shortlist {
    /// Number of globally frequent target tokens included at runtime.
    pub first_num: usize,
    /// Where the candidates of each source token start.
    pub offsets: Vec<usize>,
    /// Candidates of all source tokens, one after the other.
    pub target_ids: Vec<u32>,
}

/// The contents of a [`Shortlist`].
pub struct ShortlistContents {
    /// Number of globally frequent target tokens.
    pub first_num: usize,
    /// Where the candidates of each source token start.
    pub offsets: Seq<usize>,
    /// Candidates of all source tokens.
    pub target_ids: Seq<u32>,
}

impl View for Shortlist {
    type V = ShortlistContents;

    open spec fn view(&self) -> ShortlistContents {
        ShortlistContents {
            first_num: self.first_num,
            offsets: self.offsets@,
            target_ids: self.target_ids@,
        }
    }
}

/// An error of this file with the given text.
pub open spec fn fault(text: Seq<char>) -> LoadFault {
    LoadFault::InvalidShortlist(text)
}

/// One step of the checksum.
pub open spec fn mix(seed: u64, value: u64) -> u64 {
    seed ^ value.wrapping_add(0x9e37_79b9).wrapping_add(seed << 6).wrapping_add(seed >> 2)
}

/// The checksum of the first `words` 64-bit words.
pub open spec fn hash_words(bytes: Seq<u8>, words: nat) -> u64
    decreases words,
{
    if words == 0 {
        0
    } else {
        mix(
            hash_words(bytes, (words - 1) as nat),
            le64(bytes, 8 * (words - 1)) as u64,
        )
    }
}

/// The checksum of a byte string: that of its complete 64-bit words.
pub open spec fn marian_hash(bytes: Seq<u8>) -> u64 {
    hash_words(bytes, bytes.len() / 8)
}

/// Computes the checksum of a byte string.
///
/// A final part of fewer than eight bytes is not part of the checksum, as is
/// the case for the last entry of a target list of odd length.
pub fn marian_hash_u64(bytes: &[u8]) -> (seed: u64)
    ensures
        seed == marian_hash(bytes@),
{
    let words: usize = bytes.len() / 8;
    let mut seed: u64 = 0;
    let mut index: usize = 0;
    while index < words
        invariant
            index <= words,
            words == bytes@.len() / 8,
            seed == hash_words(bytes@, index as nat),
        decreases words - index,
    {
        assert(bytes.len() == bytes@.len());
        let value: u64 = word64(bytes, 8 * index);
        seed = seed ^ value.wrapping_add(0x9e37_79b9).wrapping_add(seed << 6).wrapping_add(
            seed >> 2,
        );
        index = index + 1;
    }
    seed
}

/// The checksum depends on the complete words alone: whatever follows the
/// last of them (fewer than eight bytes) leaves it as it is.
pub proof fn checksum_ignores_incomplete_word(bytes: Seq<u8>, tail: Seq<u8>)
    requires
        bytes.len() % 8 + tail.len() < 8,
    ensures
        marian_hash(bytes + tail) == marian_hash(bytes),
{
    hash_of_common_words(bytes + tail, bytes, bytes.len() / 8);
}

proof fn hash_of_common_words(left: Seq<u8>, right: Seq<u8>, words: nat)
    requires
        8 * words <= left.len(),
        8 * words <= right.len(),
        forall|i: int| 0 <= i < 8 * words ==> left[i] == right[i],
    ensures
        hash_words(left, words) == hash_words(right, words),
    decreases words,
{
    if words > 0 {
        hash_of_common_words(left, right, (words - 1) as nat);
    }
}

/// The field of eight bytes at `offset`.
pub open spec fn u64_field(bytes: Seq<u8>, offset: int) -> Result<u64, LoadFault> {
    if offset + 8 <= bytes.len() {
        Ok(le64(bytes, offset) as u64)
    } else {
        Err(fault("unexpected end of shortlist header"@))
    }
}

/// Reads the field of eight bytes at `offset`.
pub fn u64_at(bytes: &[u8], offset: usize) -> (field: Result<u64, LoadError>)
    ensures
        match field {
            Ok(value) => u64_field(bytes@, offset as int) == Ok::<u64, LoadFault>(value),
            Err(error) => u64_field(bytes@, offset as int) == Err::<u64, LoadFault>(error@),
        },
{
    if bytes.len() >= 8 && offset <= bytes.len() - 8 {
        Ok(word64(bytes, offset))
    } else {
        Err(LoadError::InvalidShortlist(String::from_str("unexpected end of shortlist header")))
    }
}

/// The target ID of four bytes at `offset`.
pub open spec fn u32_field(bytes: Seq<u8>, offset: int) -> Result<u32, LoadFault> {
    if offset + 4 <= bytes.len() {
        Ok(le32(bytes, offset) as u32)
    } else {
        Err(fault("unexpected end of target IDs"@))
    }
}

/// Reads the target ID of four bytes at `offset`.
pub fn u32_at(bytes: &[u8], offset: usize) -> (field: Result<u32, LoadError>)
    ensures
        match field {
            Ok(value) => u32_field(bytes@, offset as int) == Ok::<u32, LoadFault>(value),
            Err(error) => u32_field(bytes@, offset as int) == Err::<u32, LoadFault>(error@),
        },
{
    if bytes.len() >= 4 && offset <= bytes.len() - 4 {
        Ok(word32(bytes, offset))
    } else {
        Err(LoadError::InvalidShortlist(String::from_str("unexpected end of target IDs")))
    }
}

/// A file integer as a size of this machine.
pub open spec fn size_of_field(value: nat) -> Result<usize, LoadFault> {
    if value <= usize::MAX {
        Ok(value as usize)
    } else {
        Err(fault("integer does not fit usize"@))
    }
}

/// Converts a file integer to a size of this machine.
pub fn usize_value(value: u64) -> (size: Result<usize, LoadError>)
    ensures
        match size {
            Ok(size) => size_of_field(value as nat) == Ok::<usize, LoadFault>(size),
            Err(error) => size_of_field(value as nat) == Err::<usize, LoadFault>(error@),
        },
{
    if value <= usize::MAX as u64 {
        Ok(value as usize)
    } else {
        Err(LoadError::InvalidShortlist(String::from_str("integer does not fit usize")))
    }
}

/// The offset table of a file with `count` offsets.
pub open spec fn offset_table(bytes: Seq<u8>, count: nat) -> Seq<usize> {
    Seq::new(count, |i: int| le64(bytes, HEADER_LEN + 8 * i) as usize)
}

/// Every entry of the offset table is a size of this machine.
pub open spec fn offsets_fit(bytes: Seq<u8>, count: nat) -> bool {
    forall|i: int| #![trigger le64(bytes, HEADER_LEN + 8 * i)]
        0 <= i < count ==> le64(bytes, HEADER_LEN + 8 * i) <= usize::MAX
}

/// The target IDs of a file whose tables have the given lengths.
pub open spec fn target_table(bytes: Seq<u8>, offset_count: nat, target_count: nat) -> Seq<u32> {
    Seq::new(target_count, |i: int| le32(bytes, HEADER_LEN + 8 * offset_count + 4 * i) as u32)
}

/// No entry is larger than a later one.
pub open spec fn ascending(offsets: Seq<usize>) -> bool {
    forall|i: int, j: int| 0 <= i <= j < offsets.len() ==> offsets[i] <= offsets[j]
}

/// What a binary shortlist file holds, or why it is refused.
pub open spec fn shortlist_of(bytes: Seq<u8>) -> Result<ShortlistContents, LoadFault> {
    let magic = le64(bytes, 0);
    let checksum = le64(bytes, 8);
    let first_num = le64(bytes, 16);
    let best_num = le64(bytes, 24);
    let offset_count = le64(bytes, 32);
    let target_count = le64(bytes, 40);
    let expected_len = HEADER_LEN + 8 * offset_count + 4 * target_count;
    let actual = marian_hash(bytes.skip(16));
    let offsets = offset_table(bytes, offset_count);
    if bytes.len() < HEADER_LEN {
        Err(fault("invalid byte length "@ + decimal_text(bytes.len())))
    } else if magic != BINARY_SHORTLIST_MAGIC {
        Err(fault("bad magic "@ + prefixed_hex_text(magic)))
    } else if first_num > usize::MAX || best_num > usize::MAX || offset_count > usize::MAX
        || target_count > usize::MAX {
        Err(fault("integer does not fit usize"@))
    } else if 8 * offset_count > usize::MAX {
        Err(fault("offset table length overflow"@))
    } else if expected_len > usize::MAX {
        Err(fault("shortlist length overflow"@))
    } else if bytes.len() != expected_len {
        Err(
            fault(
                "header expects "@ + decimal_text(expected_len as nat) + " bytes, got "@
                    + decimal_text(bytes.len()),
            ),
        )
    } else if actual != checksum {
        Err(
            fault(
                "checksum mismatch: expected "@ + prefixed_hex_text(checksum) + ", got "@
                    + prefixed_hex_text(actual as nat),
            ),
        )
    } else if !offsets_fit(bytes, offset_count) {
        Err(fault("integer does not fit usize"@))
    } else if offset_count == 0 || offsets.last() != target_count {
        Err(fault("last offset does not equal target ID count"@))
    } else if !ascending(offsets) {
        Err(fault("offset table is not monotonic"@))
    } else {
        Ok(
            ShortlistContents {
                first_num: first_num as usize,
                offsets,
                target_ids: target_table(bytes, offset_count, target_count),
            },
        )
    }
}

/// Reads the offset table behind the header.
fn read_offsets(bytes: &[u8], count: usize) -> (offsets: Result<Vec<usize>, LoadError>)
    requires
        HEADER_LEN + 8 * count <= bytes@.len(),
    ensures
        match offsets {
            Ok(offsets) => offsets_fit(bytes@, count as nat) && offsets@ == offset_table(
                bytes@,
                count as nat,
            ),
            Err(error) => !offsets_fit(bytes@, count as nat) && error@ == fault(
                "integer does not fit usize"@,
            ),
        },
{
    assert(bytes.len() == bytes@.len());
    let mut offsets: Vec<usize> = Vec::with_capacity(count);
    let mut index: usize = 0;
    while index < count
        invariant
            index <= count,
            HEADER_LEN + 8 * count <= bytes@.len() <= usize::MAX,
            offsets_fit(bytes@, index as nat),
            offsets@ == offset_table(bytes@, index as nat),
        decreases count - index,
    {
        let value: u64 = word64(bytes, HEADER_LEN + 8 * index);
        match usize_value(value) {
            Ok(size) => {
                offsets.push(size);
                assert(offsets@ =~= offset_table(bytes@, (index + 1) as nat));
            },
            Err(error) => {
                assert(le64(bytes@, HEADER_LEN + 8 * (index as int)) > usize::MAX);
                return Err(error);
            },
        }
        index = index + 1;
    }
    Ok(offsets)
}

/// Reads the target IDs behind the offset table.
fn read_target_ids(bytes: &[u8], offset_count: usize, count: usize) -> (ids: Vec<u32>)
    requires
        HEADER_LEN + 8 * offset_count + 4 * count <= bytes@.len(),
    ensures
        ids@ == target_table(bytes@, offset_count as nat, count as nat),
{
    assert(bytes.len() == bytes@.len());
    let mut ids: Vec<u32> = Vec::with_capacity(count);
    let mut index: usize = 0;
    while index < count
        invariant
            index <= count,
            HEADER_LEN + 8 * offset_count + 4 * count <= bytes@.len() <= usize::MAX,
            ids@ == target_table(bytes@, offset_count as nat, index as nat),
        decreases count - index,
    {
        ids.push(word32(bytes, HEADER_LEN + 8 * offset_count + 4 * index));
        assert(ids@ =~= target_table(bytes@, offset_count as nat, (index + 1) as nat));
        index = index + 1;
    }
    ids
}

/// Decides whether no offset is larger than the next one.
fn is_ascending(offsets: &Vec<usize>) -> (answer: bool)
    ensures
        answer == ascending(offsets@),
{
    let mut index: usize = 1;
    while index < offsets.len()
        invariant
            1 <= index,
            forall|i: int, j: int|
                0 <= i <= j < index && j < offsets@.len() ==> offsets@[i] <= offsets@[j],
        decreases offsets@.len() - index,
    {
        if offsets[index - 1] > offsets[index] {
            return false;
        }
        index = index + 1;
    }
    true
}

impl Shortlist {
    /// Parses a Bergamot binary lexical shortlist.
    pub fn load(bytes: Vec<u8>) -> (shortlist: Result<Shortlist, LoadError>)
        ensures
            match shortlist {
                Ok(shortlist) => shortlist_of(bytes@) == Ok::<ShortlistContents, LoadFault>(
                    shortlist@,
                ),
                Err(error) => shortlist_of(bytes@) == Err::<ShortlistContents, LoadFault>(error@),
            },
    {
        let data: &[u8] = bytes.as_slice();
        let length: usize = data.len();
        if length < HEADER_LEN {
            return Err(
                LoadError::InvalidShortlist(
                    String::from_str("invalid byte length ").concat(
                        decimal_usize(length).as_str(),
                    ),
                ),
            );
        }
        let magic: u64 = u64_at(data, 0)?;
        let expected_checksum: u64 = u64_at(data, 8)?;
        if magic != BINARY_SHORTLIST_MAGIC {
            return Err(
                LoadError::InvalidShortlist(
                    String::from_str("bad magic ").concat(prefixed_hex(magic).as_str()),
                ),
            );
        }
        let first_num: usize = usize_value(u64_at(data, 16)?)?;
        // This generation parameter is baked into the candidate table. It is
        // read to validate the header, but lookup neither needs it nor
        // truncates candidates again.
        let _best_num: usize = usize_value(u64_at(data, 24)?)?;
        let offset_count: usize = usize_value(u64_at(data, 32)?)?;
        let target_count: usize = usize_value(u64_at(data, 40)?)?;
        let offset_bytes: usize = match offset_count.checked_mul(8) {
            Some(size) => size,
            None => {
                return Err(
                    LoadError::InvalidShortlist(String::from_str("offset table length overflow")),
                );
            },
        };
        let expected_len: Option<usize> = match (
            HEADER_LEN.checked_add(offset_bytes),
            target_count.checked_mul(4),
        ) {
            (Some(before), Some(size)) => before.checked_add(size),
            _ => None,
        };
        let expected_len: usize = match expected_len {
            Some(size) => size,
            None => {
                return Err(
                    LoadError::InvalidShortlist(String::from_str("shortlist length overflow")),
                );
            },
        };
        if length != expected_len {
            return Err(
                LoadError::InvalidShortlist(
                    String::from_str("header expects ").concat(
                        decimal_usize(expected_len).as_str(),
                    ).concat(" bytes, got ").concat(decimal_usize(length).as_str()),
                ),
            );
        }
        let body: &[u8] = vstd::slice::slice_subrange(data, 16, length);
        assert(body@ =~= bytes@.skip(16));
        let actual_checksum: u64 = marian_hash_u64(body);
        if actual_checksum != expected_checksum {
            return Err(
                LoadError::InvalidShortlist(
                    String::from_str("checksum mismatch: expected ").concat(
                        prefixed_hex(expected_checksum).as_str(),
                    ).concat(", got ").concat(prefixed_hex(actual_checksum).as_str()),
                ),
            );
        }
        let offsets: Vec<usize> = read_offsets(data, offset_count)?;
        if offset_count == 0 || offsets[offset_count - 1] != target_count {
            return Err(
                LoadError::InvalidShortlist(
                    String::from_str("last offset does not equal target ID count"),
                ),
            );
        }
        if !is_ascending(&offsets) {
            return Err(
                LoadError::InvalidShortlist(String::from_str("offset table is not monotonic")),
            );
        }
        let target_ids: Vec<u32> = read_target_ids(data, offset_count, target_count);
        Ok(Shortlist { first_num, offsets, target_ids })
    }
}

impl ShortlistContents {
    /// The offset table is usable: it ends at the number of target IDs and no
    /// source token's candidates end before they start.
    pub open spec fn well_formed(self) -> bool {
        &&& self.offsets.len() > 0
        &&& self.offsets.last() == self.target_ids.len()
        &&& ascending(self.offsets)
    }

    /// Number of source tokens that the shortlist covers.
    pub open spec fn source_vocab_size(self) -> nat {
        if self.offsets.len() == 0 {
            0
        } else {
            (self.offsets.len() - 1) as nat
        }
    }

    /// The candidates of a source token, where the table has them.
    pub open spec fn candidates(self, source: int) -> Option<Seq<u32>> {
        if 0 <= source && source + 1 < self.offsets.len() && self.offsets[source]
            <= self.offsets[source + 1] <= self.target_ids.len() {
            Some(
                self.target_ids.subrange(
                    self.offsets[source] as int,
                    self.offsets[source + 1] as int,
                ),
            )
        } else {
            None
        }
    }

    /// The source token has the target token among its candidates.
    pub open spec fn lists(self, source: u32, target: int) -> bool {
        match self.candidates(source as int) {
            Some(found) => exists|k: int|
                0 <= k < found.len() && (#[trigger] found[k]) as int == target,
            None => false,
        }
    }

    /// The source token asks for the target token: it is a candidate or, with
    /// a shared vocabulary, the source token itself.
    pub open spec fn asks_for(self, source: u32, shared_vocab: bool, target: int) -> bool {
        (shared_vocab && source as int == target) || self.lists(source, target)
    }

    /// The target token is globally frequent, or some source token asks for
    /// it.
    pub open spec fn wanted(self, source_ids: Seq<u32>, shared_vocab: bool, target: int) -> bool {
        target < self.first_num || exists|i: int|
            0 <= i < source_ids.len() && self.asks_for(#[trigger] source_ids[i], shared_vocab, target)
    }

    /// Number of tokens to add to the wanted ones so that the result has a
    /// length divisible by eight.
    pub open spec fn missing(
        self,
        source_ids: Seq<u32>,
        target_vocab_size: int,
        shared_vocab: bool,
    ) -> int {
        let count = count_where(
            |t: int| self.wanted(source_ids, shared_vocab, t),
            0,
            target_vocab_size,
        );
        (8 - count % 8) % 8
    }

    /// The target token is part of the generated list: it is wanted, or it is
    /// one of the first unwanted ones behind the frequent tokens that fill the
    /// list up.
    pub open spec fn selected(
        self,
        source_ids: Seq<u32>,
        target_vocab_size: int,
        shared_vocab: bool,
        target: int,
    ) -> bool {
        self.wanted(source_ids, shared_vocab, target) || (target >= self.first_num && count_where(
            |t: int| !self.wanted(source_ids, shared_vocab, t),
            self.first_num as int,
            target,
        ) < self.missing(source_ids, target_vocab_size, shared_vocab))
    }

    /// The generated list: the selected target tokens in ascending order.
    pub open spec fn generated(
        self,
        source_ids: Seq<u32>,
        target_vocab_size: int,
        shared_vocab: bool,
    ) -> Seq<u32> {
        ids_where(
            |t: int| self.selected(source_ids, target_vocab_size, shared_vocab, t),
            target_vocab_size,
        )
    }
}

/// How many numbers from `low` up to (not including) `high` satisfy `holds`.
pub open spec fn count_where(holds: spec_fn(int) -> bool, low: int, high: int) -> int
    decreases high - low,
{
    if high <= low {
        0
    } else {
        count_where(holds, low, high - 1) + if holds(high - 1) {
            1int
        } else {
            0
        }
    }
}

/// The numbers below `size` that satisfy `holds`, in ascending order.
pub open spec fn ids_where(holds: spec_fn(int) -> bool, size: int) -> Seq<u32>
    decreases size,
{
    if size <= 0 {
        Seq::empty()
    } else if holds(size - 1) {
        ids_where(holds, size - 1).push((size - 1) as u32)
    } else {
        ids_where(holds, size - 1)
    }
}

proof fn counts_agree(left: spec_fn(int) -> bool, right: spec_fn(int) -> bool, low: int, high: int)
    requires
        forall|t: int| low <= t < high ==> #[trigger] left(t) == right(t),
    ensures
        count_where(left, low, high) == count_where(right, low, high),
    decreases high - low,
{
    if low < high {
        counts_agree(left, right, low, high - 1);
    }
}

proof fn lists_agree(left: spec_fn(int) -> bool, right: spec_fn(int) -> bool, size: int)
    requires
        forall|t: int| 0 <= t < size ==> #[trigger] left(t) == right(t),
    ensures
        ids_where(left, size) == ids_where(right, size),
    decreases size,
{
    if 0 < size {
        lists_agree(left, right, size - 1);
    }
}

proof fn count_bounds(holds: spec_fn(int) -> bool, low: int, high: int)
    ensures
        0 <= count_where(holds, low, high),
        low <= high ==> count_where(holds, low, high) <= high - low,
    decreases high - low,
{
    if low < high {
        count_bounds(holds, low, high - 1);
    }
}

/// Which numbers a vector of flags marks.
spec fn marks(flags: Seq<bool>) -> spec_fn(int) -> bool {
    |t: int| flags[t]
}

/// Which numbers a vector of flags leaves out.
spec fn leaves_out(flags: Seq<bool>) -> spec_fn(int) -> bool {
    |t: int| !flags[t]
}

/// Marks the numbers below `limit`, and no others.
fn mark_first(size: usize, limit: usize) -> (flags: Vec<bool>)
    ensures
        flags@.len() == size,
        forall|t: int| 0 <= t < size ==> #[trigger] flags@[t] == (t < limit),
{
    let mut flags: Vec<bool> = Vec::with_capacity(size);
    let mut index: usize = 0;
    while index < size
        invariant
            index <= size,
            flags@.len() == index,
            forall|t: int| 0 <= t < index ==> #[trigger] flags@[t] == (t < limit),
        decreases size - index,
    {
        flags.push(index < limit);
        index = index + 1;
    }
    flags
}

/// Counts the marked numbers.
fn count_marked(flags: &Vec<bool>) -> (count: usize)
    ensures
        count == count_where(marks(flags@), 0, flags@.len() as int),
{
    let mut count: usize = 0;
    let mut index: usize = 0;
    while index < flags.len()
        invariant
            index <= flags@.len(),
            count <= index,
            count == count_where(marks(flags@), 0, index as int),
        decreases flags@.len() - index,
    {
        if flags[index] {
            count = count + 1;
        }
        index = index + 1;
    }
    count
}

/// Lists the marked numbers in ascending order.
fn list_marked(flags: &Vec<bool>) -> (ids: Vec<u32>)
    ensures
        ids@ == ids_where(marks(flags@), flags@.len() as int),
{
    let mut ids: Vec<u32> = Vec::new();
    let mut index: usize = 0;
    while index < flags.len()
        invariant
            index <= flags@.len(),
            ids@ == ids_where(marks(flags@), index as int),
        decreases flags@.len() - index,
    {
        if flags[index] {
            ids.push(
                #[verifier::truncate]
                (index as u32),
            );
        }
        index = index + 1;
    }
    ids
}

/// Marks, from `start` on, the first unmarked numbers, until the number of
/// marked ones is divisible by eight or all are marked.
fn fill_up(flags: &mut Vec<bool>, start: usize)
    ensures
        final(flags)@.len() == old(flags)@.len(),
        forall|t: int|
            0 <= t < old(flags)@.len() ==> #[trigger] final(flags)@[t] == (old(flags)@[t] || (t
                >= start && count_where(leaves_out(old(flags)@), start as int, t) < (8
                - count_where(marks(old(flags)@), 0, old(flags)@.len() as int) % 8) % 8)),
{
    let ghost before = flags@;
    let ghost free = leaves_out(before);
    let ghost missing = (8 - count_where(marks(before), 0, before.len() as int) % 8) % 8;
    let start_count: usize = count_marked(flags);
    let mut count: usize = start_count % 8;
    let mut index: usize = start;
    while index < flags.len() && count % 8 != 0
        invariant
            flags@.len() == before.len(),
            start <= index,
            index > start ==> index <= before.len(),
            free == leaves_out(before),
            start_count == count_where(marks(before), 0, before.len() as int),
            missing == (8 - start_count as int % 8) % 8,
            count == start_count % 8 + count_where(free, start as int, index as int),
            count <= 8,
            start_count % 8 == 0 ==> count == 0,
            count_where(free, start as int, index as int) <= missing,
            forall|t: int| index <= t < before.len() ==> flags@[t] == before[t],
            forall|t: int| 0 <= t < start && t < before.len() ==> flags@[t] == before[t],
            forall|t: int|
                start <= t < index ==> #[trigger] flags@[t] && count_where(free, start as int, t)
                    <= missing && (before[t] || count_where(free, start as int, t) < missing),
        decreases flags@.len() - index,
    {
        if !flags[index] {
            flags.set(index, true);
            count = count + 1;
        }
        index = index + 1;
    }
    proof {
        assert forall|t: int| 0 <= t < before.len() implies #[trigger] flags@[t] == (before[t]
            || (t >= start && count_where(free, start as int, t) < missing)) by {
            if t >= index && t >= start {
                count_bounds(free, start as int, index as int);
                count_is_monotone(free, start as int, index as int, t);
            }
        }
    }
}

proof fn count_is_monotone(holds: spec_fn(int) -> bool, low: int, middle: int, high: int)
    requires
        low <= middle <= high,
    ensures
        count_where(holds, low, middle) <= count_where(holds, low, high),
    decreases high - middle,
{
    if middle < high {
        count_is_monotone(holds, low, middle, high - 1);
    }
}

impl Shortlist {
    /// Number of source tokens that the shortlist covers.
    pub fn source_vocab_size(&self) -> (size: usize)
        ensures
            size == self@.source_vocab_size(),
    {
        if self.offsets.len() == 0 {
            0
        } else {
            self.offsets.len() - 1
        }
    }

    /// The candidates of a source token.
    pub fn candidates(&self, source_id: usize) -> (found: Option<&[u32]>)
        ensures
            match found {
                Some(found) => self@.candidates(source_id as int) == Some(found@),
                None => self@.candidates(source_id as int) is None,
            },
    {
        if source_id >= self.source_vocab_size() {
            return None;
        }
        let start: usize = self.offsets[source_id];
        let end: usize = self.offsets[source_id + 1];
        if start <= end && end <= self.target_ids.len() {
            Some(vstd::slice::slice_subrange(self.target_ids.as_slice(), start, end))
        } else {
            None
        }
    }

    /// Lists the target tokens to score for the given source tokens.
    pub fn generate_shared(
        &self,
        source_ids: &[u32],
        target_vocab_size: usize,
        shared_vocab: bool,
    ) -> (ids: Vec<u32>)
        ensures
            ids@ == self@.generated(source_ids@, target_vocab_size as int, shared_vocab),
    {
        self.generate_impl(source_ids, target_vocab_size, shared_vocab)
    }

    /// Marks what the source token at `at` asks for, given that the flags mark
    /// what the tokens before it ask for.
    fn mark_requests(
        &self,
        flags: &mut Vec<bool>,
        seen: &mut Vec<bool>,
        source_ids: &[u32],
        at: usize,
        shared_vocab: bool,
    )
        requires
            at < source_ids@.len(),
            old(seen)@.len() == self@.source_vocab_size(),
            forall|t: int|
                0 <= t < old(flags)@.len() ==> #[trigger] old(flags)@[t] == self@.wanted(
                    source_ids@.take(at as int),
                    shared_vocab,
                    t,
                ),
            forall|s: int|
                0 <= s < old(seen)@.len() && #[trigger] old(seen)@[s] ==> exists|i: int|
                    0 <= i < at && #[trigger] source_ids@[i] as int == s,
        ensures
            final(flags)@.len() == old(flags)@.len(),
            final(seen)@.len() == old(seen)@.len(),
            forall|t: int|
                0 <= t < final(flags)@.len() ==> #[trigger] final(flags)@[t] == self@.wanted(
                    source_ids@.take(at + 1),
                    shared_vocab,
                    t,
                ),
            forall|s: int|
                0 <= s < final(seen)@.len() && #[trigger] final(seen)@[s] ==> exists|i: int|
                    0 <= i < at + 1 && #[trigger] source_ids@[i] as int == s,
    {
        let ghost before = flags@;
        let ghost earlier = source_ids@.take(at as int);
        let ghost later = source_ids@.take(at + 1);
        let ghost contents = self@;
        let source_id: u32 = source_ids[at];
        proof {
            assert forall|t: int| contents.wanted(later, shared_vocab, t) == (contents.wanted(
                earlier,
                shared_vocab,
                t,
            ) || contents.asks_for(source_id, shared_vocab, t)) by {
                if contents.wanted(later, shared_vocab, t) && t >= contents.first_num {
                    let i = choose|i: int|
                        0 <= i < later.len() && contents.asks_for(
                            #[trigger] later[i],
                            shared_vocab,
                            t,
                        );
                    if i < at {
                        assert(earlier[i] == later[i]);
                    }
                }
                if contents.asks_for(source_id, shared_vocab, t) {
                    assert(later[at as int] == source_id);
                }
                if contents.wanted(earlier, shared_vocab, t) && t >= contents.first_num {
                    let i = choose|i: int|
                        0 <= i < earlier.len() && contents.asks_for(
                            #[trigger] earlier[i],
                            shared_vocab,
                            t,
                        );
                    assert(later[i] == earlier[i]);
                }
            }
        }
        let source_index: usize = source_id as usize;
        if shared_vocab && source_index < flags.len() {
            flags.set(source_index, true);
        }
        if source_index < seen.len() {
            if seen[source_index] {
                proof {
                    let i = choose|i: int|
                        0 <= i < at && #[trigger] source_ids@[i] as int == source_index;
                    assert(earlier[i] == source_id);
                    assert forall|t: int| contents.asks_for(source_id, shared_vocab, t) implies
                        contents.wanted(earlier, shared_vocab, t) by {
                        assert(contents.asks_for(earlier[i], shared_vocab, t));
                    }
                }
                return ;
            }
            seen.set(source_index, true);
        }
        if let Some(found) = self.candidates(source_index) {
            let mut at_found: usize = 0;
            while at_found < found.len()
                invariant
                    at_found <= found@.len(),
                    flags@.len() == before.len(),
                    forall|t: int|
                        0 <= t < before.len() ==> #[trigger] flags@[t] == (before[t] || (
                        shared_vocab && source_id as int == t) || exists|k: int|
                            0 <= k < at_found && #[trigger] found@[k] as int == t),
                decreases found@.len() - at_found,
            {
                let target: usize = found[at_found] as usize;
                if target < flags.len() {
                    flags.set(target, true);
                }
                at_found = at_found + 1;
            }
            proof {
                assert forall|t: int| 0 <= t < flags@.len() implies #[trigger] flags@[t] == (
                before[t] || contents.asks_for(source_id, shared_vocab, t)) by {
                    assert(contents.candidates(source_id as int) == Some(found@));
                    if exists|k: int| 0 <= k < at_found && #[trigger] found@[k] as int == t {
                        let k = choose|k: int|
                            0 <= k < at_found && #[trigger] found@[k] as int == t;
                        assert(contents.candidates(source_id as int)->0[k] == found@[k]);
                    }
                    if contents.lists(source_id, t) {
                        let k = choose|k: int|
                            0 <= k < found@.len() && (#[trigger] found@[k]) as int == t;
                        assert(found@[k] as int == t);
                    }
                }
            }
        }
    }

    /// Lists the target tokens to score: the frequent ones, those that the
    /// source tokens ask for, and as many others as make the length divisible
    /// by eight.
    pub fn generate_impl(
        &self,
        source_ids: &[u32],
        target_vocab_size: usize,
        shared_vocab: bool,
    ) -> (ids: Vec<u32>)
        ensures
            ids@ == self@.generated(source_ids@, target_vocab_size as int, shared_vocab),
    {
        let mut flags: Vec<bool> = mark_first(target_vocab_size, self.first_num);
        let mut seen: Vec<bool> = mark_first(self.source_vocab_size(), 0);
        let mut at: usize = 0;
        while at < source_ids.len()
            invariant
                at <= source_ids@.len(),
                flags@.len() == target_vocab_size,
                seen@.len() == self@.source_vocab_size(),
                forall|t: int|
                    0 <= t < flags@.len() ==> #[trigger] flags@[t] == self@.wanted(
                        source_ids@.take(at as int),
                        shared_vocab,
                        t,
                    ),
                forall|s: int|
                    0 <= s < seen@.len() && #[trigger] seen@[s] ==> exists|i: int|
                        0 <= i < at && #[trigger] source_ids@[i] as int == s,
            decreases source_ids@.len() - at,
        {
            self.mark_requests(&mut flags, &mut seen, source_ids, at, shared_vocab);
            at = at + 1;
        }
        let ghost wanted = flags@;
        let ghost size = target_vocab_size as int;
        let ghost contents = self@;
        fill_up(&mut flags, self.first_num);
        proof {
            assert(source_ids@.take(at as int) == source_ids@);
            counts_agree(
                marks(wanted),
                |t: int| contents.wanted(source_ids@, shared_vocab, t),
                0,
                size,
            );
            let is_selected = |t: int|
                contents.selected(source_ids@, size, shared_vocab, t);
            assert forall|t: int| 0 <= t < size implies #[trigger] marks(flags@)(t) == is_selected(
                t,
            ) by {
                counts_agree(
                    leaves_out(wanted),
                    |u: int| !contents.wanted(source_ids@, shared_vocab, u),
                    contents.first_num as int,
                    t,
                );
            }
            lists_agree(marks(flags@), is_selected, size);
        }
        list_marked(&flags)
    }

    /// Checks that the vocabulary has every candidate.
    pub fn validate_target_vocab(&self, target_vocab_size: usize) -> (checked: Result<
        (),
        LoadError,
    >)
        ensures
            match checked {
                Ok(_) => self@.first_outside(target_vocab_size as int) is None,
                Err(error) => self@.first_outside(target_vocab_size as int) matches Some(id)
                    && error@ == outside_vocabulary(id, target_vocab_size as nat),
            },
    {
        let mut at: usize = 0;
        proof {
            assert(self.target_ids@.skip(0) == self.target_ids@);
        }
        while at < self.target_ids.len()
            invariant
                at <= self.target_ids@.len(),
                self@.first_outside(target_vocab_size as int) == first_at_least(
                    self.target_ids@.skip(at as int),
                    target_vocab_size as int,
                ),
            decreases self.target_ids@.len() - at,
        {
            let id: u32 = self.target_ids[at];
            proof {
                assert(self.target_ids@.skip(at as int).skip(1) == self.target_ids@.skip(at + 1));
            }
            if id as usize >= target_vocab_size {
                return Err(
                    LoadError::InvalidShortlist(
                        String::from_str("target ID ").concat(decimal(id as u64).as_str()).concat(
                            " exceeds target vocabulary ",
                        ).concat(decimal_usize(target_vocab_size).as_str()),
                    ),
                );
            }
            at = at + 1;
        }
        Ok(())
    }
}

/// The first ID that is not below the limit.
pub open spec fn first_at_least(ids: Seq<u32>, limit: int) -> Option<u32>
    decreases ids.len(),
{
    if ids.len() == 0 {
        None
    } else if ids[0] as int >= limit {
        Some(ids[0])
    } else {
        first_at_least(ids.skip(1), limit)
    }
}

/// What is found is the first ID that is not below the limit; nothing is found
/// where all are below it.
pub proof fn first_at_least_is_first(ids: Seq<u32>, limit: int)
    ensures
        match first_at_least(ids, limit) {
            None => forall|k: int| 0 <= k < ids.len() ==> #[trigger] ids[k] < limit,
            Some(id) => id >= limit && exists|at: int|
                0 <= at < ids.len() && #[trigger] ids[at] == id && forall|k: int|
                    0 <= k < at ==> #[trigger] ids[k] < limit,
        },
    decreases ids.len(),
{
    if ids.len() > 0 {
        if ids[0] as int >= limit {
            assert(ids[0] == first_at_least(ids, limit)->0);
        } else {
            let rest = ids.skip(1);
            first_at_least_is_first(rest, limit);
            match first_at_least(rest, limit) {
                None => {
                    assert forall|k: int| 0 <= k < ids.len() implies #[trigger] ids[k] < limit by {
                        if k > 0 {
                            assert(rest[k - 1] == ids[k]);
                        }
                    }
                },
                Some(id) => {
                    let at = choose|at: int|
                        0 <= at < rest.len() && #[trigger] rest[at] == id && forall|k: int|
                            0 <= k < at ==> #[trigger] rest[k] < limit;
                    assert(ids[at + 1] == id);
                    assert forall|k: int| 0 <= k < at + 1 implies #[trigger] ids[k] < limit by {
                        if k > 0 {
                            assert(rest[k - 1] == ids[k]);
                        }
                    }
                },
            }
        }
    }
}

/// The error for a candidate that the target vocabulary lacks.
pub open spec fn outside_vocabulary(id: u32, target_vocab_size: nat) -> LoadFault {
    fault(
        "target ID "@ + decimal_text(id as nat) + " exceeds target vocabulary "@ + decimal_text(
            target_vocab_size,
        ),
    )
}

impl ShortlistContents {
    /// The first candidate that a target vocabulary of the given size lacks.
    pub open spec fn first_outside(self, target_vocab_size: int) -> Option<u32> {
        first_at_least(self.target_ids, target_vocab_size)
    }
}

/// Every shortlist that loads is well formed, and every source token that it
/// covers has candidates.
pub proof fn loaded_shortlists_are_well_formed(bytes: Seq<u8>)
    requires
        shortlist_of(bytes) is Ok,
    ensures
        ({
            let contents = shortlist_of(bytes)->Ok_0;
            &&& contents.well_formed()
            &&& forall|source: int|
                0 <= source < contents.source_vocab_size() ==> #[trigger] contents.candidates(
                    source,
                ) is Some
        }),
{
    let contents = shortlist_of(bytes)->Ok_0;
    assert forall|source: int|
        0 <= source < contents.source_vocab_size() implies #[trigger] contents.candidates(
        source,
    ) is Some by {
        assert(contents.offsets[source] <= contents.offsets[source + 1]);
        assert(contents.offsets[source + 1] <= contents.offsets.last());
    }
}

proof fn listed_ids(holds: spec_fn(int) -> bool, size: int)
    requires
        0 <= size <= 0x1_0000_0000,
    ensures
        ids_where(holds, size).len() == count_where(holds, 0, size),
        forall|k: int|
            0 <= k < ids_where(holds, size).len() ==> {
                let id = #[trigger] ids_where(holds, size)[k] as int;
                id < size && holds(id)
            },
        forall|t: int|
            0 <= t < size && #[trigger] holds(t) ==> ids_where(holds, size).contains(t as u32),
        forall|j: int, k: int|
            0 <= j < k < ids_where(holds, size).len() ==> #[trigger] ids_where(holds, size)[j]
                < #[trigger] ids_where(holds, size)[k],
    decreases size,
{
    if size > 0 {
        let shorter = ids_where(holds, size - 1);
        listed_ids(holds, size - 1);
        assert forall|t: int| 0 <= t < size && #[trigger] holds(t) implies ids_where(
            holds,
            size,
        ).contains(t as u32) by {
            if t < size - 1 {
                let k = choose|k: int| 0 <= k < shorter.len() && shorter[k] == t as u32;
                assert(ids_where(holds, size)[k] == t as u32);
            } else {
                assert(ids_where(holds, size).last() == t as u32);
            }
        }
    }
}

/// The generated list is strictly ascending, has only tokens of the target
/// vocabulary, and has exactly the selected ones of them.
pub proof fn generated_lists_ascend(
    contents: ShortlistContents,
    source_ids: Seq<u32>,
    target_vocab_size: int,
    shared_vocab: bool,
)
    requires
        0 <= target_vocab_size <= 0x1_0000_0000,
    ensures
        ({
            let ids = contents.generated(source_ids, target_vocab_size, shared_vocab);
            &&& forall|j: int, k: int| 0 <= j < k < ids.len() ==> ids[j] < ids[k]
            &&& forall|k: int| 0 <= k < ids.len() ==> #[trigger] ids[k] < target_vocab_size
            &&& forall|t: u32|
                #[trigger] ids.contains(t) <==> t < target_vocab_size && contents.selected(
                    source_ids,
                    target_vocab_size,
                    shared_vocab,
                    t as int,
                )
        }),
{
    let holds = |t: int| contents.selected(source_ids, target_vocab_size, shared_vocab, t);
    listed_ids(holds, target_vocab_size);
    let ids = contents.generated(source_ids, target_vocab_size, shared_vocab);
    assert forall|t: u32| #[trigger] ids.contains(t) <==> t < target_vocab_size
        && contents.selected(source_ids, target_vocab_size, shared_vocab, t as int) by {
        if t < target_vocab_size && contents.selected(
            source_ids,
            target_vocab_size,
            shared_vocab,
            t as int,
        ) {
            assert(holds(t as int));
        }
    }
}

/// The generated list has every frequent token and every token that a source
/// token asks for, as far as the target vocabulary has it.
pub proof fn generated_lists_keep_requests(
    contents: ShortlistContents,
    source_ids: Seq<u32>,
    target_vocab_size: int,
    shared_vocab: bool,
    target: u32,
)
    requires
        target < target_vocab_size <= 0x1_0000_0000,
        target < contents.first_num || exists|i: int|
            0 <= i < source_ids.len() && contents.asks_for(
                #[trigger] source_ids[i],
                shared_vocab,
                target as int,
            ),
    ensures
        contents.generated(source_ids, target_vocab_size, shared_vocab).contains(target),
{
    generated_lists_ascend(contents, source_ids, target_vocab_size, shared_vocab);
}

proof fn selected_count(
    contents: ShortlistContents,
    source_ids: Seq<u32>,
    size: int,
    shared_vocab: bool,
    high: int,
)
    requires
        0 <= high,
    ensures
        ({
            let selected = count_where(
                |t: int| contents.selected(source_ids, size, shared_vocab, t),
                0,
                high,
            );
            let wanted = count_where(
                |t: int| contents.wanted(source_ids, shared_vocab, t),
                0,
                high,
            );
            let free = count_where(
                |t: int| !contents.wanted(source_ids, shared_vocab, t),
                contents.first_num as int,
                high,
            );
            let missing = contents.missing(source_ids, size, shared_vocab);
            &&& wanted + free == high
            &&& selected == wanted + if free < missing {
                free
            } else {
                missing
            }
        }),
    decreases high,
{
    if high > 0 {
        selected_count(contents, source_ids, size, shared_vocab, high - 1);
    }
}

/// The length of the generated list is divisible by eight, unless the list is
/// the whole target vocabulary.
pub proof fn generated_lists_fill_lanes(
    contents: ShortlistContents,
    source_ids: Seq<u32>,
    target_vocab_size: int,
    shared_vocab: bool,
)
    requires
        0 <= target_vocab_size <= 0x1_0000_0000,
    ensures
        ({
            let ids = contents.generated(source_ids, target_vocab_size, shared_vocab);
            ids.len() % 8 == 0 || ids.len() == target_vocab_size
        }),
{
    let holds = |t: int| contents.selected(source_ids, target_vocab_size, shared_vocab, t);
    listed_ids(holds, target_vocab_size);
    selected_count(contents, source_ids, target_vocab_size, shared_vocab, target_vocab_size);
}

/// Which target tokens are generated depends on which source tokens there are,
/// not on their order or on how often each occurs.
pub proof fn generated_lists_ignore_order(
    contents: ShortlistContents,
    left: Seq<u32>,
    right: Seq<u32>,
    target_vocab_size: int,
    shared_vocab: bool,
)
    requires
        left.to_set() == right.to_set(),
    ensures
        contents.generated(left, target_vocab_size, shared_vocab) == contents.generated(
            right,
            target_vocab_size,
            shared_vocab,
        ),
{
    assert forall|t: int|
        contents.wanted(left, shared_vocab, t) == contents.wanted(right, shared_vocab, t) by {
        if contents.wanted(left, shared_vocab, t) {
            requests_follow_set(contents, left, right, shared_vocab, t);
        }
        if contents.wanted(right, shared_vocab, t) {
            requests_follow_set(contents, right, left, shared_vocab, t);
        }
    }
    counts_agree(
        |t: int| contents.wanted(left, shared_vocab, t),
        |t: int| contents.wanted(right, shared_vocab, t),
        0,
        target_vocab_size,
    );
    let in_left = |t: int| contents.selected(left, target_vocab_size, shared_vocab, t);
    let in_right = |t: int| contents.selected(right, target_vocab_size, shared_vocab, t);
    assert forall|t: int| 0 <= t < target_vocab_size implies #[trigger] in_left(t) == in_right(
        t,
    ) by {
        counts_agree(
            |u: int| !contents.wanted(left, shared_vocab, u),
            |u: int| !contents.wanted(right, shared_vocab, u),
            contents.first_num as int,
            t,
        );
    }
    lists_agree(in_left, in_right, target_vocab_size);
}

proof fn requests_follow_set(
    contents: ShortlistContents,
    left: Seq<u32>,
    right: Seq<u32>,
    shared_vocab: bool,
    target: int,
)
    requires
        left.to_set() == right.to_set(),
        contents.wanted(left, shared_vocab, target),
    ensures
        contents.wanted(right, shared_vocab, target),
{
    if target >= contents.first_num {
        let i = choose|i: int|
            0 <= i < left.len() && contents.asks_for(#[trigger] left[i], shared_vocab, target);
        assert(left.to_set().contains(left[i]));
        assert(right.to_set().contains(left[i]));
        let j = choose|j: int| 0 <= j < right.len() && right[j] == left[i];
        assert(contents.asks_for(right[j], shared_vocab, target));
    }
}

/// The checksum of whole words goes on word by word: a further word is added
/// to the golden ratio and to two shifts of the checksum so far, and the sum
/// flips bits of that checksum. Fewer than eight bytes have the checksum zero.
pub proof fn checksums_go_on(bytes: Seq<u8>, word: Seq<u8>)
    requires
        bytes.len() % 8 == 0,
        word.len() == 8,
    ensures
        ({
            let seed = marian_hash(bytes);
            marian_hash(bytes + word) == seed ^ ((((le64(word, 0) as u64).wrapping_add(
                0x9e37_79b9,
            )).wrapping_add(seed << 6)).wrapping_add(seed >> 2))
        }),
        forall|short: Seq<u8>| short.len() < 8 ==> #[trigger] marian_hash(short) == 0,
{
    let words = bytes.len() / 8;
    let all = bytes + word;
    assert(all.len() / 8 == words + 1);
    hash_of_common_words(all, bytes, words);
    let start = 8 * words as int;
    assert(all.subrange(start, start + 8) =~= word);
    parts_keep_numbers(all, start, start + 8, 0);
    assert(hash_words(all, words + 1) == mix(
        hash_words(all, words),
        le64(all, start) as u64,
    ));
    assert forall|short: Seq<u8>| short.len() < 8 implies #[trigger] marian_hash(short) == 0 by {
        assert(short.len() / 8 == 0);
    }
}

/// A file is loaded exactly where it is as long as its two tables need, has
/// the format's mark and the checksum of what follows, and its offsets ascend
/// to the number of target IDs. Then each offset and each target ID is the
/// little-endian number at its place.
#[verifier::spinoff_prover]
#[verifier::rlimit(60)]
pub proof fn shortlists_hold_tables(bytes: Seq<u8>, contents: ShortlistContents)
    ensures
        shortlist_of(bytes) == Ok::<ShortlistContents, LoadFault>(contents) ==> {
            &&& bytes.len() == 48 + 8 * contents.offsets.len() + 4 * contents.target_ids.len()
            &&& le64(bytes, 0) == 0xF11A_48D5_0134_17F5
            &&& le64(bytes, 8) == marian_hash(bytes.skip(16))
            &&& le64(bytes, 16) == contents.first_num
            &&& le64(bytes, 24) <= usize::MAX
            &&& le64(bytes, 32) == contents.offsets.len()
            &&& le64(bytes, 40) == contents.target_ids.len()
            &&& forall|i: int|
                0 <= i < contents.offsets.len() ==> #[trigger] contents.offsets[i] == le64(
                    bytes,
                    48 + 8 * i,
                )
            &&& forall|i: int|
                0 <= i < contents.target_ids.len() ==> #[trigger] contents.target_ids[i] == le32(
                    bytes,
                    48 + 8 * contents.offsets.len() + 4 * i,
                )
            &&& contents.offsets.len() > 0
            &&& contents.offsets[contents.offsets.len() - 1] == contents.target_ids.len()
            &&& forall|i: int|
                0 < i < contents.offsets.len() ==> contents.offsets[i - 1]
                    <= #[trigger] contents.offsets[i]
        },
        ({
            &&& bytes.len() == 48 + 8 * contents.offsets.len() + 4 * contents.target_ids.len()
            &&& bytes.len() <= usize::MAX
            &&& le64(bytes, 0) == 0xF11A_48D5_0134_17F5
            &&& le64(bytes, 8) == marian_hash(bytes.skip(16))
            &&& le64(bytes, 16) == contents.first_num
            &&& le64(bytes, 24) <= usize::MAX
            &&& le64(bytes, 32) == contents.offsets.len()
            &&& le64(bytes, 40) == contents.target_ids.len()
            &&& forall|i: int|
                0 <= i < contents.offsets.len() ==> #[trigger] contents.offsets[i] == le64(
                    bytes,
                    48 + 8 * i,
                )
            &&& forall|i: int|
                0 <= i < contents.target_ids.len() ==> #[trigger] contents.target_ids[i] == le32(
                    bytes,
                    48 + 8 * contents.offsets.len() + 4 * i,
                )
            &&& contents.offsets.len() > 0
            &&& contents.offsets[contents.offsets.len() - 1] == contents.target_ids.len()
            &&& forall|i: int, j: int|
                0 <= i <= j < contents.offsets.len() ==> contents.offsets[i] <= contents.offsets[j]
        }) ==> shortlist_of(bytes) == Ok::<ShortlistContents, LoadFault>(contents),
{
    let offset_count = contents.offsets.len();
    let target_count = contents.target_ids.len();
    let offsets = offset_table(bytes, le64(bytes, 32));
    let targets = target_table(bytes, le64(bytes, 32), le64(bytes, 40));
    if shortlist_of(bytes) == Ok::<ShortlistContents, LoadFault>(contents) {
        assert forall|i: int| 0 <= i < offset_count implies #[trigger] contents.offsets[i] == le64(
            bytes,
            48 + 8 * i,
        ) by {
            assert(le64(bytes, HEADER_LEN + 8 * i) <= usize::MAX);
        }
        assert(forall|i: int|
            0 < i < contents.offsets.len() ==> contents.offsets[i - 1]
                <= #[trigger] contents.offsets[i]);
    }
    if ({
        &&& bytes.len() == 48 + 8 * offset_count + 4 * target_count
        &&& bytes.len() <= usize::MAX
        &&& le64(bytes, 0) == 0xF11A_48D5_0134_17F5
        &&& le64(bytes, 8) == marian_hash(bytes.skip(16))
        &&& le64(bytes, 16) == contents.first_num
        &&& le64(bytes, 24) <= usize::MAX
        &&& le64(bytes, 32) == offset_count
        &&& le64(bytes, 40) == target_count
        &&& forall|i: int|
            0 <= i < offset_count ==> #[trigger] contents.offsets[i] == le64(bytes, 48 + 8 * i)
        &&& forall|i: int|
            0 <= i < target_count ==> #[trigger] contents.target_ids[i] == le32(
                bytes,
                48 + 8 * offset_count + 4 * i,
            )
        &&& offset_count > 0
        &&& contents.offsets[offset_count - 1] == target_count
        &&& forall|i: int, j: int|
            0 <= i <= j < offset_count ==> contents.offsets[i] <= contents.offsets[j]
    }) {
        assert forall|i: int| 0 <= i < offset_count implies #[trigger] offsets[i]
            == contents.offsets[i] by {}
        assert forall|i: int| 0 <= i < target_count implies #[trigger] targets[i]
            == contents.target_ids[i] by {}
        assert(offsets =~= contents.offsets);
        assert(targets =~= contents.target_ids);
        assert forall|i: int| #![trigger le64(bytes, HEADER_LEN + 8 * i)]
            0 <= i < offset_count implies le64(bytes, HEADER_LEN + 8 * i) <= usize::MAX by {
            assert(contents.offsets[i] == le64(bytes, 48 + 8 * i));
        }
    }
}

/// A target token is asked for: it is one of the frequent ones, or it stands
/// between the offsets of a source token, or the vocabulary is shared and it is
/// a source token itself.
pub open spec fn is_requested(
    contents: ShortlistContents,
    source_ids: Seq<u32>,
    shared_vocab: bool,
    target: u32,
) -> bool {
    ||| target < contents.first_num
    ||| shared_vocab && source_ids.contains(target)
    ||| exists|i: int, j: int|
        #![trigger source_ids[i], contents.target_ids[j]]
        0 <= i < source_ids.len() && source_ids[i] + 1 < contents.offsets.len()
            && contents.offsets[source_ids[i] as int] <= j < contents.offsets[source_ids[i] + 1]
            && contents.target_ids[j] == target
}

proof fn wanted_is_requested(
    contents: ShortlistContents,
    source_ids: Seq<u32>,
    shared_vocab: bool,
    target: u32,
)
    requires
        contents.offsets.len() > 0,
        contents.offsets[contents.offsets.len() - 1] == contents.target_ids.len(),
        forall|i: int, j: int|
            0 <= i <= j < contents.offsets.len() ==> contents.offsets[i] <= contents.offsets[j],
    ensures
        contents.wanted(source_ids, shared_vocab, target as int) == is_requested(
            contents,
            source_ids,
            shared_vocab,
            target,
        ),
{
    if contents.wanted(source_ids, shared_vocab, target as int) && target >= contents.first_num {
        let i = choose|i: int|
            0 <= i < source_ids.len() && contents.asks_for(
                #[trigger] source_ids[i],
                shared_vocab,
                target as int,
            );
        let source = source_ids[i];
        if shared_vocab && source == target {
            assert(source_ids.contains(target));
        } else {
            let found = contents.candidates(source as int)->0;
            let k = choose|k: int|
                0 <= k < found.len() && (#[trigger] found[k]) as int == target as int;
            let j = contents.offsets[source as int] + k;
            assert(contents.target_ids[j] == found[k]);
        }
    }
    if is_requested(contents, source_ids, shared_vocab, target) && target >= contents.first_num {
        if shared_vocab && source_ids.contains(target) {
            let i = choose|i: int| 0 <= i < source_ids.len() && source_ids[i] == target;
            assert(contents.asks_for(source_ids[i], shared_vocab, target as int));
        } else {
            let (i, j) = choose|i: int, j: int|
                #![trigger source_ids[i], contents.target_ids[j]]
                0 <= i < source_ids.len() && source_ids[i] + 1 < contents.offsets.len()
                    && contents.offsets[source_ids[i] as int] <= j < contents.offsets[source_ids[i]
                    + 1] && contents.target_ids[j] == target;
            let source = source_ids[i] as int;
            assert(contents.offsets[source] <= contents.offsets[source + 1]);
            assert(contents.offsets[source + 1] <= contents.offsets[contents.offsets.len() - 1]);
            let found = contents.candidates(source)->0;
            assert(found[j - contents.offsets[source]] == contents.target_ids[j]);
            assert(contents.lists(source_ids[i], target as int));
            assert(contents.asks_for(source_ids[i], shared_vocab, target as int));
        }
    }
}

proof fn filtered_count(holds: spec_fn(int) -> bool, keeps: spec_fn(u32) -> bool, size: int)
    requires
        0 <= size <= 0x1_0000_0000,
    ensures
        ids_where(holds, size).filter(keeps).len() == count_where(
            |t: int| holds(t) && keeps(t as u32),
            0,
            size,
        ),
    decreases size,
{
    if size > 0 {
        filtered_count(holds, keeps, size - 1);
        let shorter = ids_where(holds, size - 1);
        if holds(size - 1) {
            let longer = shorter.push((size - 1) as u32);
            assert(longer.drop_last() =~= shorter);
            reveal(Seq::filter);
        }
    } else {
        reveal(Seq::filter);
    }
}

proof fn parts_count(
    holds: spec_fn(int) -> bool,
    one: spec_fn(int) -> bool,
    low: int,
    high: int,
)
    ensures
        count_where(holds, low, high) == count_where(|t: int| holds(t) && one(t), low, high)
            + count_where(|t: int| holds(t) && !one(t), low, high),
    decreases high - low,
{
    if low < high {
        parts_count(holds, one, low, high - 1);
    }
}

proof fn fillers_come_first(
    contents: ShortlistContents,
    source_ids: Seq<u32>,
    size: int,
    shared_vocab: bool,
    earlier: int,
    later: int,
)
    requires
        contents.first_num <= earlier < later,
        contents.selected(source_ids, size, shared_vocab, later),
        !contents.wanted(source_ids, shared_vocab, later),
    ensures
        contents.selected(source_ids, size, shared_vocab, earlier),
{
    count_grows(
        |t: int| !contents.wanted(source_ids, shared_vocab, t),
        contents.first_num as int,
        earlier,
        later,
    );
}

proof fn count_grows(holds: spec_fn(int) -> bool, low: int, middle: int, high: int)
    requires
        low <= middle <= high,
    ensures
        count_where(holds, low, middle) <= count_where(holds, low, high),
    decreases high - middle,
{
    if middle < high {
        count_grows(holds, low, middle, high - 1);
    }
}

/// The generated list has every token that is asked for. Fewer than eight
/// others fill it up, and those are the lowest ones behind the frequent
/// tokens: what lies between the frequent tokens and a filling one is in the
/// list.
#[verifier::spinoff_prover]
#[verifier::rlimit(60)]
pub proof fn generated_lists_are_requests_and_fillers(
    contents: ShortlistContents,
    source_ids: Seq<u32>,
    target_vocab_size: int,
    shared_vocab: bool,
)
    requires
        contents.offsets.len() > 0,
        contents.offsets[contents.offsets.len() - 1] == contents.target_ids.len(),
        forall|i: int, j: int|
            0 <= i <= j < contents.offsets.len() ==> contents.offsets[i] <= contents.offsets[j],
        0 <= target_vocab_size <= 0x1_0000_0000,
    ensures
        ({
            let ids = contents.generated(source_ids, target_vocab_size, shared_vocab);
            &&& forall|t: u32|
                t < target_vocab_size && #[trigger] is_requested(
                    contents,
                    source_ids,
                    shared_vocab,
                    t,
                ) ==> ids.contains(t)
            &&& forall|t: u32, u: u32|
                #![trigger ids.contains(t), ids.contains(u)]
                ids.contains(t) && !is_requested(contents, source_ids, shared_vocab, t)
                    && contents.first_num <= u < t ==> ids.contains(u)
            &&& ids.filter(|t: u32| !is_requested(contents, source_ids, shared_vocab, t)).len() < 8
            &&& ids.filter(|t: u32| is_requested(contents, source_ids, shared_vocab, t)).len() % 8
                == 0 ==> forall|t: u32|
                #[trigger] ids.contains(t) ==> is_requested(contents, source_ids, shared_vocab, t)
        }),
{
    let size = target_vocab_size;
    let ids = contents.generated(source_ids, size, shared_vocab);
    let selected = |t: int| contents.selected(source_ids, size, shared_vocab, t);
    let wanted = |t: int| contents.wanted(source_ids, shared_vocab, t);
    let requested = |t: u32| is_requested(contents, source_ids, shared_vocab, t);
    let other = |t: u32| !is_requested(contents, source_ids, shared_vocab, t);
    assert forall|t: u32| contents.wanted(source_ids, shared_vocab, t as int) == #[trigger]
        is_requested(contents, source_ids, shared_vocab, t) by {
        wanted_is_requested(contents, source_ids, shared_vocab, t);
    }
    generated_lists_ascend(contents, source_ids, size, shared_vocab);
    assert forall|t: u32, u: u32|
        #![trigger ids.contains(t), ids.contains(u)]
        ids.contains(t) && !is_requested(contents, source_ids, shared_vocab, t)
            && contents.first_num <= u < t implies ids.contains(u) by {
        fillers_come_first(contents, source_ids, size, shared_vocab, u as int, t as int);
    }
    filtered_count(selected, other, size);
    filtered_count(selected, requested, size);
    parts_count(selected, wanted, 0, size);
    counts_agree(|t: int| selected(t) && !wanted(t), |t: int| selected(t) && other(t as u32), 0, size);
    counts_agree(
        |t: int| selected(t) && wanted(t),
        |t: int| selected(t) && requested(t as u32),
        0,
        size,
    );
    counts_agree(|t: int| selected(t) && wanted(t), wanted, 0, size);
    selected_count(contents, source_ids, size, shared_vocab, size);
    counts_agree(|t: int| contents.wanted(source_ids, shared_vocab, t), wanted, 0, size);
    counts_agree(
        |t: int| contents.selected(source_ids, size, shared_vocab, t),
        selected,
        0,
        size,
    );
    count_bounds(|t: int| selected(t) && other(t as u32), 0, size);
    if ids.filter(requested).len() % 8 == 0 {
        assert(ids.filter(other).len() == 0);
        assert forall|t: u32| #[trigger] ids.contains(t) implies is_requested(
            contents,
            source_ids,
            shared_vocab,
            t,
        ) by {
            if !is_requested(contents, source_ids, shared_vocab, t) {
                let at = choose|at: int| 0 <= at < ids.len() && ids[at] == t;
                ids.lemma_filter_contains(other, at);
            }
        }
    }
}

/// The contents of a shortlist are what it holds. A source token that it
/// covers has the target IDs between its offset and the next one.
pub proof fn candidates_stand_between_offsets(shortlist: Shortlist, source: int, k: int)
    ensures
        shortlist@.first_num == shortlist.first_num,
        shortlist@.offsets == shortlist.offsets@,
        shortlist@.target_ids == shortlist.target_ids@,
        shortlist@.candidates(source) is Some <==> 0 <= source && source + 1
            < shortlist.offsets@.len() && shortlist.offsets@[source] <= shortlist.offsets@[source
            + 1] <= shortlist.target_ids@.len(),
        shortlist@.candidates(source) matches Some(found) ==> found.len() == shortlist.offsets@[
            source + 1] - shortlist.offsets@[source] && (0 <= k < found.len() ==> found[k]
            == shortlist.target_ids@[shortlist.offsets@[source] + k]),
        shortlist.offsets@.len() > 0 ==> shortlist@.source_vocab_size() + 1
            == shortlist.offsets@.len(),
{
}

/// A field is read where the file reaches behind it, as the number that its
/// bytes write with the lowest first; a size is a number that this machine can
/// count to.
pub proof fn fields_are_numbers(bytes: Seq<u8>, offset: int, value: nat)
    requires
        0 <= offset,
    ensures
        u64_field(bytes, offset) is Ok <==> offset + 8 <= bytes.len(),
        u64_field(bytes, offset) matches Ok(number) ==> number == le64(bytes, offset),
        u32_field(bytes, offset) is Ok <==> offset + 4 <= bytes.len(),
        u32_field(bytes, offset) matches Ok(number) ==> number == le32(bytes, offset),
        size_of_field(value) is Ok <==> value <= usize::MAX,
        size_of_field(value) matches Ok(size) ==> size == value,
{
}

} // verus!
