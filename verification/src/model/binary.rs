//! The Marian v1 binary archive.

use crate::asset::Asset;
use crate::bytes::{
    le32, le64, same_bytes, signed32, signed8, to_signed32, to_signed8, word32, word64,
};
use crate::decimal::{float_text, show_float};
use crate::error::{LoadError, LoadFault};
use crate::ieee::{finite_and_positive, is_finite_and_positive};
use crate::message::{
    decimal, decimal_text, decimal_usize, hex, hex_text, signed_decimal, signed_text,
};
use crate::model::config::ModelConfig;
use sha2::Digest;
use vstd::prelude::*;
use vstd::string::*;
use vstd::utf8::{decode_utf8, valid_utf8};

verus! {

/// The archive version that is understood.
pub const BINARY_FILE_VERSION: u64 = 1;

/// Type code of plain bytes.
pub const TYPE_INT8: u64 = 0x0101;

/// Type code of 32-bit floating-point numbers.
pub const TYPE_FLOAT32: u64 = 0x0404;

/// Type code of 8-bit quantized weights with a multiplier behind them.
pub const TYPE_INTGEMM8: u64 = 0x4101;

/// The error for a malformed archive.
pub open spec fn malformed(text: Seq<char>) -> LoadFault {
    LoadFault::InvalidModel(text)
}

/// The error for an archive that ends too early.
pub open spec fn cut_short() -> LoadFault {
    malformed("unexpected end of Marian model"@)
}

/// Bytes that are read front to back; what has been read counts for the hash.
pub struct HashingReader {
    bytes: Vec<u8>,
    position: usize,
}

impl View for HashingReader {
    type V = Seq<u8>;

    /// The bytes that have not been read.
    closed spec fn view(&self) -> Seq<u8> {
        self.bytes@.skip(self.position as int)
    }
}

impl HashingReader {
    /// The bytes that have been read.
    pub closed spec fn consumed(&self) -> Seq<u8> {
        self.bytes@.take(self.position as int)
    }

    /// All bytes, read or not.
    pub closed spec fn whole(&self) -> Seq<u8> {
        self.bytes@
    }

    /// What has been read and what has not make up the whole.
    pub proof fn parts_make_whole(&self)
        requires
            self.valid(),
        ensures
            self.consumed() + self@ == self.whole(),
    {
    }

    /// The reader stands inside of its bytes.
    pub closed spec fn valid(&self) -> bool {
        self.position <= self.bytes@.len()
    }

    /// Starts in front of the first byte.
    pub fn new(bytes: Vec<u8>) -> (reader: HashingReader)
        ensures
            reader.valid(),
            reader@ == bytes@,
            reader.whole() == bytes@,
            reader.consumed() == Seq::<u8>::empty(),
    {
        HashingReader { bytes, position: 0 }
    }

    /// Number of bytes that have not been read.
    pub fn remaining(&self) -> (count: usize)
        requires
            self.valid(),
        ensures
            count == self@.len(),
    {
        self.bytes.len() - self.position
    }

    /// Reads the next `len` bytes.
    pub fn read_exact(&mut self, len: usize) -> (read: Result<Vec<u8>, LoadError>)
        requires
            old(self).valid(),
        ensures
            final(self).valid(),
            final(self).whole() == old(self).whole(),
            match read {
                Ok(bytes) => {
                    &&& len <= old(self)@.len()
                    &&& bytes@ == old(self)@.take(len as int)
                    &&& final(self)@ == old(self)@.skip(len as int)
                    &&& final(self).consumed() == old(self).consumed() + bytes@
                },
                Err(error) => {
                    &&& old(self)@.len() < len
                    &&& error@ == cut_short()
                },
            },
    {
        if self.remaining() < len {
            return Err(LoadError::InvalidModel(String::from_str("unexpected end of Marian model")));
        }
        proof {
            assert(self.bytes.len() == self.bytes@.len());
        }
        let end: usize = self.position + len;
        let part: Vec<u8> = vstd::slice::slice_to_vec(
            vstd::slice::slice_subrange(self.bytes.as_slice(), self.position, end),
        );
        self.position = end;
        Ok(part)
    }

    /// SHA-256 hash of the bytes that have been read.
    pub fn finalize(self) -> (digest: [u8; 32])
        requires
            self.valid(),
        ensures
            digest@ == sha256_of(self.consumed()),
    {
        let read: &[u8] = vstd::slice::slice_subrange(self.bytes.as_slice(), 0, self.position);
        proof {
            assert(read@ == self.consumed());
        }
        sha256(read)
    }
}

/// The SHA-256 hash of a byte string.
pub uninterp spec fn sha256_of(bytes: Seq<u8>) -> Seq<u8>;

/// Hashes bytes with `sha2::Sha256::digest`.
///
/// Claimed of it: the 32 bytes depend on `bytes` alone. Which bytes they are
/// is named, not described.
#[verifier::external_body]
fn sha256(bytes: &[u8]) -> (digest: [u8; 32])
    ensures
        digest@ == sha256_of(bytes@),
{
    sha2::Sha256::digest(bytes).into()
}

/// The next 64-bit number.
pub open spec fn next_number(rest: Seq<u8>) -> Result<(nat, Seq<u8>), LoadFault> {
    if rest.len() < 8 {
        Err(cut_short())
    } else {
        Ok((le64(rest, 0), rest.skip(8)))
    }
}

/// Reads a 64-bit number.
pub fn read_u64(reader: &mut HashingReader) -> (read: Result<u64, LoadError>)
    requires
        old(reader).valid(),
    ensures
        final(reader).valid(),
        final(reader).whole() == old(reader).whole(),
        match read {
            Ok(value) => next_number(old(reader)@) == Ok::<(nat, Seq<u8>), LoadFault>(
                (value as nat, final(reader)@),
            ),
            Err(error) => next_number(old(reader)@) == Err::<(nat, Seq<u8>), LoadFault>(error@),
        },
{
    let bytes: Vec<u8> = reader.read_exact(8)?;
    Ok(word64(bytes.as_slice(), 0))
}

/// The next 32-bit signed number.
pub open spec fn next_dimension(rest: Seq<u8>) -> Result<(int, Seq<u8>), LoadFault> {
    if rest.len() < 4 {
        Err(cut_short())
    } else {
        Ok((signed32(le32(rest, 0)), rest.skip(4)))
    }
}

/// Reads a 32-bit signed number.
pub fn read_i32(reader: &mut HashingReader) -> (read: Result<i32, LoadError>)
    requires
        old(reader).valid(),
    ensures
        final(reader).valid(),
        final(reader).whole() == old(reader).whole(),
        match read {
            Ok(value) => next_dimension(old(reader)@) == Ok::<(int, Seq<u8>), LoadFault>(
                (value as int, final(reader)@),
            ),
            Err(error) => next_dimension(old(reader)@) == Err::<(int, Seq<u8>), LoadFault>(error@),
        },
{
    let bytes: Vec<u8> = reader.read_exact(4)?;
    Ok(to_signed32(word32(bytes.as_slice(), 0)))
}

/// The error for a number that is too large for this machine.
pub open spec fn too_large(label: Seq<char>) -> LoadFault {
    malformed(label + " does not fit usize"@)
}

/// Converts a number of the file to a size.
pub fn usize_from_u64(value: u64, label: &str) -> (size: Result<usize, LoadError>)
    ensures
        match size {
            Ok(size) => size == value,
            Err(error) => value > usize::MAX && error@ == too_large(label@),
        },
{
    if value <= usize::MAX as u64 {
        Ok(value as usize)
    } else {
        Err(LoadError::InvalidModel(String::from_str(label).concat(" does not fit usize")))
    }
}

/// Skips bytes.
pub fn copy_to_sink(reader: &mut HashingReader, len: usize) -> (skipped: Result<(), LoadError>)
    requires
        old(reader).valid(),
    ensures
        final(reader).valid(),
        final(reader).whole() == old(reader).whole(),
        match skipped {
            Ok(_) => len <= old(reader)@.len() && final(reader)@ == old(reader)@.skip(len as int),
            Err(error) => old(reader)@.len() < len && error@ == cut_short(),
        },
{
    let ghost start = reader@;
    let mut remaining: usize = len;
    while remaining > 0
        invariant
            remaining <= len,
            len - remaining <= start.len(),
            reader.valid(),
            reader.whole() == old(reader).whole(),
            reader@ == start.skip(len - remaining),
            start == old(reader)@,
        decreases remaining,
    {
        let chunk: usize = if remaining < 4096 {
            remaining
        } else {
            4096
        };
        let _skipped: Vec<u8> = reader.read_exact(chunk)?;
        remaining = remaining - chunk;
    }
    Ok(())
}

/// What the front of the archive says of one item.
#[derive(Debug, Clone, Copy)]
pub struct Header {
    /// Length of the name, with its final NUL byte.
    pub name_len: usize,
    /// How the payload is to be read.
    pub type_code: u64,
    /// Number of dimensions.
    pub shape_len: usize,
    /// Length of the payload.
    pub data_len: usize,
}

/// The next 64-bit number, as a size.
pub open spec fn next_size(rest: Seq<u8>, label: Seq<char>) -> Result<(usize, Seq<u8>), LoadFault> {
    match next_number(rest) {
        Err(fault) => Err(fault),
        Ok((value, rest)) => if value > usize::MAX {
            Err(too_large(label))
        } else {
            Ok((value as usize, rest))
        },
    }
}

/// Reads a 64-bit number as a size.
fn read_size(reader: &mut HashingReader, label: &str) -> (read: Result<usize, LoadError>)
    requires
        old(reader).valid(),
    ensures
        final(reader).valid(),
        final(reader).whole() == old(reader).whole(),
        match read {
            Ok(size) => next_size(old(reader)@, label@) == Ok::<(usize, Seq<u8>), LoadFault>(
                (size, final(reader)@),
            ),
            Err(error) => next_size(old(reader)@, label@) == Err::<(usize, Seq<u8>), LoadFault>(
                error@,
            ),
        },
{
    let value: u64 = read_u64(reader)?;
    usize_from_u64(value, label)
}

/// The next header.
pub open spec fn next_header(rest: Seq<u8>) -> Result<(Header, Seq<u8>), LoadFault> {
    match next_size(rest, "name length"@) {
        Err(fault) => Err(fault),
        Ok((name_len, rest)) => match next_number(rest) {
            Err(fault) => Err(fault),
            Ok((type_code, rest)) => match next_size(rest, "shape length"@) {
                Err(fault) => Err(fault),
                Ok((shape_len, rest)) => match next_size(rest, "data length"@) {
                    Err(fault) => Err(fault),
                    Ok((data_len, rest)) => Ok(
                        (
                            Header { name_len, type_code: type_code as u64, shape_len, data_len },
                            rest,
                        ),
                    ),
                },
            },
        },
    }
}

/// `count` more headers, behind those already read.
pub open spec fn more_headers(rest: Seq<u8>, count: nat, done: Seq<Header>) -> Result<
    (Seq<Header>, Seq<u8>),
    LoadFault,
>
    decreases count,
{
    if count == 0 {
        Ok((done, rest))
    } else {
        match next_header(rest) {
            Err(fault) => Err(fault),
            Ok((header, rest)) => more_headers(rest, (count - 1) as nat, done.push(header)),
        }
    }
}

/// The number of items and their headers.
pub open spec fn all_headers(rest: Seq<u8>) -> Result<(Seq<Header>, Seq<u8>), LoadFault> {
    match next_size(rest, "item count"@) {
        Err(fault) => Err(fault),
        Ok((count, rest)) => if count == 0 || count > 100_000 {
            Err(malformed("implausible item count "@ + decimal_text(count as nat)))
        } else {
            more_headers(rest, count as nat, Seq::empty())
        },
    }
}

/// Reads the number of items and their headers.
pub fn read_headers(reader: &mut HashingReader) -> (read: Result<Vec<Header>, LoadError>)
    requires
        old(reader).valid(),
    ensures
        final(reader).valid(),
        final(reader).whole() == old(reader).whole(),
        match read {
            Ok(headers) => all_headers(old(reader)@) == Ok::<(Seq<Header>, Seq<u8>), LoadFault>(
                (headers@, final(reader)@),
            ),
            Err(error) => all_headers(old(reader)@) == Err::<(Seq<Header>, Seq<u8>), LoadFault>(
                error@,
            ),
        },
{
    let count: usize = read_size(reader, "item count")?;
    if count == 0 || count > 100_000 {
        return Err(
            LoadError::InvalidModel(
                String::from_str("implausible item count ").concat(decimal_usize(count).as_str()),
            ),
        );
    }
    let mut headers: Vec<Header> = Vec::new();
    let ghost expected = all_headers(old(reader)@);
    while headers.len() < count
        invariant
            headers@.len() <= count,
            reader.valid(),
            reader.whole() == old(reader).whole(),
            expected == all_headers(old(reader)@),
            expected == more_headers(reader@, (count - headers@.len()) as nat, headers@),
        decreases count - headers@.len(),
    {
        let name_len: usize = read_size(reader, "name length")?;
        let type_code: u64 = read_u64(reader)?;
        let shape_len: usize = read_size(reader, "shape length")?;
        let data_len: usize = read_size(reader, "data length")?;
        headers.push(Header { name_len, type_code, shape_len, data_len });
    }
    Ok(headers)
}

/// The text of a name of the given length.
pub open spec fn next_name(rest: Seq<u8>, len: usize) -> Result<(Seq<char>, Seq<u8>), LoadFault> {
    if len == 0 || len > 16 * 1024 {
        Err(malformed("invalid tensor name length "@ + decimal_text(len as nat)))
    } else if rest.len() < len {
        Err(cut_short())
    } else if rest[len - 1] != 0 {
        Err(malformed("tensor name is not NUL terminated"@))
    } else if !valid_utf8(rest.take(len - 1)) {
        Err(malformed("tensor name is not valid UTF-8"@))
    } else {
        Ok((decode_utf8(rest.take(len - 1)), rest.skip(len as int)))
    }
}

/// The names that belong to the headers, behind those already read.
pub open spec fn more_names(
    rest: Seq<u8>,
    headers: Seq<Header>,
    done: Seq<Seq<char>>,
) -> Result<(Seq<Seq<char>>, Seq<u8>), LoadFault>
    decreases headers.len() - done.len(),
{
    if done.len() >= headers.len() {
        Ok((done, rest))
    } else {
        match next_name(rest, headers[done.len() as int].name_len) {
            Err(fault) => Err(fault),
            Ok((name, rest)) => more_names(rest, headers, done.push(name)),
        }
    }
}

/// The texts of a list of strings.
pub open spec fn texts(strings: Seq<String>) -> Seq<Seq<char>> {
    strings.map_values(|string: String| string@)
}

/// Turns bytes into a text with `String::from_utf8`.
///
/// Claimed of it: it succeeds exactly on valid UTF-8, and the text is then the
/// one that the bytes encode.
#[verifier::external_body]
fn text_from_utf8(bytes: Vec<u8>) -> (text: Option<String>)
    ensures
        match text {
            Some(text) => valid_utf8(bytes@) && text@ == decode_utf8(bytes@),
            None => !valid_utf8(bytes@),
        },
{
    String::from_utf8(bytes).ok()
}

/// Reads the names that belong to the headers.
pub fn read_names(reader: &mut HashingReader, headers: &[Header]) -> (read: Result<
    Vec<String>,
    LoadError,
>)
    requires
        old(reader).valid(),
    ensures
        final(reader).valid(),
        final(reader).whole() == old(reader).whole(),
        match read {
            Ok(names) => names@.len() == headers@.len() && more_names(
                old(reader)@,
                headers@,
                Seq::empty(),
            ) == Ok::<(Seq<Seq<char>>, Seq<u8>), LoadFault>((texts(names@), final(reader)@)),
            Err(error) => more_names(old(reader)@, headers@, Seq::empty()) == Err::<
                (Seq<Seq<char>>, Seq<u8>),
                LoadFault,
            >(error@),
        },
{
    let mut names: Vec<String> = Vec::new();
    let ghost expected = more_names(old(reader)@, headers@, Seq::empty());
    proof {
        assert(texts(names@) == Seq::<Seq<char>>::empty());
    }
    while names.len() < headers.len()
        invariant
            names@.len() <= headers@.len(),
            reader.valid(),
            reader.whole() == old(reader).whole(),
            expected == more_names(old(reader)@, headers@, Seq::empty()),
            expected == more_names(reader@, headers@, texts(names@)),
        decreases headers@.len() - names@.len(),
    {
        let len: usize = headers[names.len()].name_len;
        if len == 0 || len > 16 * 1024 {
            return Err(
                LoadError::InvalidModel(
                    String::from_str("invalid tensor name length ").concat(
                        decimal_usize(len).as_str(),
                    ),
                ),
            );
        }
        let ghost rest = reader@;
        let mut bytes: Vec<u8> = reader.read_exact(len)?;
        let last: Option<u8> = bytes.pop();
        proof {
            assert(bytes@ == rest.take(len - 1));
        }
        if last != Some(0) {
            return Err(
                LoadError::InvalidModel(String::from_str("tensor name is not NUL terminated")),
            );
        }
        match text_from_utf8(bytes) {
            Some(name) => {
                let ghost before = texts(names@);
                names.push(name);
                proof {
                    assert(texts(names@) == before.push(name@));
                }
            },
            None => {
                return Err(
                    LoadError::InvalidModel(String::from_str("tensor name is not valid UTF-8")),
                );
            },
        }
    }
    Ok(names)
}

/// The dimensions of a shape of the given rank, behind those already read.
pub open spec fn more_dimensions(rest: Seq<u8>, rank: nat, done: Seq<usize>) -> Result<
    (Seq<usize>, Seq<u8>),
    LoadFault,
>
    decreases rank - done.len(),
{
    if done.len() >= rank {
        Ok((done, rest))
    } else {
        match next_dimension(rest) {
            Err(fault) => Err(fault),
            Ok((dim, rest)) => if dim <= 0 {
                Err(malformed("invalid tensor dimension "@ + signed_text(dim)))
            } else {
                more_dimensions(rest, rank, done.push(dim as usize))
            },
        }
    }
}

/// A shape of the given rank.
pub open spec fn next_shape(rest: Seq<u8>, rank: usize) -> Result<(Seq<usize>, Seq<u8>), LoadFault> {
    if rank == 0 || rank > 8 {
        Err(malformed("invalid shape rank "@ + decimal_text(rank as nat)))
    } else {
        more_dimensions(rest, rank as nat, Seq::empty())
    }
}

/// The shapes that belong to the headers, behind those already read.
pub open spec fn more_shapes(
    rest: Seq<u8>,
    headers: Seq<Header>,
    done: Seq<Seq<usize>>,
) -> Result<(Seq<Seq<usize>>, Seq<u8>), LoadFault>
    decreases headers.len() - done.len(),
{
    if done.len() >= headers.len() {
        Ok((done, rest))
    } else {
        match next_shape(rest, headers[done.len() as int].shape_len) {
            Err(fault) => Err(fault),
            Ok((shape, rest)) => more_shapes(rest, headers, done.push(shape)),
        }
    }
}

/// The contents of a list of lists of numbers.
pub open spec fn lists(vectors: Seq<Vec<usize>>) -> Seq<Seq<usize>> {
    vectors.map_values(|vector: Vec<usize>| vector@)
}

/// Reads a shape of the given rank.
fn read_shape(reader: &mut HashingReader, rank: usize) -> (read: Result<Vec<usize>, LoadError>)
    requires
        old(reader).valid(),
    ensures
        final(reader).valid(),
        final(reader).whole() == old(reader).whole(),
        match read {
            Ok(shape) => next_shape(old(reader)@, rank) == Ok::<(Seq<usize>, Seq<u8>), LoadFault>(
                (shape@, final(reader)@),
            ),
            Err(error) => next_shape(old(reader)@, rank) == Err::<(Seq<usize>, Seq<u8>), LoadFault>(
                error@,
            ),
        },
{
    if rank == 0 || rank > 8 {
        return Err(
            LoadError::InvalidModel(
                String::from_str("invalid shape rank ").concat(decimal_usize(rank).as_str()),
            ),
        );
    }
    let mut shape: Vec<usize> = Vec::new();
    let ghost expected = next_shape(old(reader)@, rank);
    while shape.len() < rank
        invariant
            shape@.len() <= rank,
            reader.valid(),
            reader.whole() == old(reader).whole(),
            expected == next_shape(old(reader)@, rank),
            expected == more_dimensions(reader@, rank as nat, shape@),
        decreases rank - shape@.len(),
    {
        let dim: i32 = read_i32(reader)?;
        if dim <= 0 {
            return Err(
                LoadError::InvalidModel(
                    String::from_str("invalid tensor dimension ").concat(
                        signed_decimal(dim as i64).as_str(),
                    ),
                ),
            );
        }
        shape.push(dim as usize);
    }
    Ok(shape)
}

/// Reads the shapes that belong to the headers.
pub fn read_shapes(reader: &mut HashingReader, headers: &[Header]) -> (read: Result<
    Vec<Vec<usize>>,
    LoadError,
>)
    requires
        old(reader).valid(),
    ensures
        final(reader).valid(),
        final(reader).whole() == old(reader).whole(),
        match read {
            Ok(shapes) => shapes@.len() == headers@.len() && more_shapes(
                old(reader)@,
                headers@,
                Seq::empty(),
            ) == Ok::<(Seq<Seq<usize>>, Seq<u8>), LoadFault>((lists(shapes@), final(reader)@)),
            Err(error) => more_shapes(old(reader)@, headers@, Seq::empty()) == Err::<
                (Seq<Seq<usize>>, Seq<u8>),
                LoadFault,
            >(error@),
        },
{
    let mut shapes: Vec<Vec<usize>> = Vec::new();
    let ghost expected = more_shapes(old(reader)@, headers@, Seq::empty());
    proof {
        assert(lists(shapes@) == Seq::<Seq<usize>>::empty());
    }
    while shapes.len() < headers.len()
        invariant
            shapes@.len() <= headers@.len(),
            reader.valid(),
            reader.whole() == old(reader).whole(),
            expected == more_shapes(old(reader)@, headers@, Seq::empty()),
            expected == more_shapes(reader@, headers@, lists(shapes@)),
        decreases headers@.len() - shapes@.len(),
    {
        let shape: Vec<usize> = read_shape(reader, headers[shapes.len()].shape_len)?;
        let ghost before = lists(shapes@);
        shapes.push(shape);
        proof {
            assert(lists(shapes@) == before.push(shape@));
        }
    }
    Ok(shapes)
}

/// How a payload is stored.
#[derive(Debug, Clone, Copy, PartialEq, Eq, Structural)]
pub enum TensorType {
    /// Plain bytes.
    Int8,
    /// 32-bit floating-point numbers.
    Float32,
    /// 8-bit quantized weights.
    IntGemm8,
}

/// The numbers of a tensor. A floating-point number is held as its 32-bit
/// pattern.
#[derive(Debug)]
pub enum TensorData {
    /// Plain bytes, which inference does not use.
    Bytes,
    /// Floating-point numbers.
    F32(Vec<u32>),
    /// Quantized weights: each stands for its value divided by the
    /// multiplier.
    QuantizedI8 {
        /// The weights.
        values: Vec<i8>,
        /// The multiplier.
        multiplier: u32,
    },
}

/// The numbers of a tensor, as sequences.
#[verifier::ext_equal]
pub enum DataContents {
    /// See [`TensorData::Bytes`].
    Bytes,
    /// See [`TensorData::F32`].
    F32(Seq<u32>),
    /// See [`TensorData::QuantizedI8`].
    QuantizedI8 {
        /// The weights.
        values: Seq<i8>,
        /// The multiplier.
        multiplier: u32,
    },
}

impl View for TensorData {
    type V = DataContents;

    open spec fn view(&self) -> DataContents {
        match self {
            TensorData::Bytes => DataContents::Bytes,
            TensorData::F32(values) => DataContents::F32(values@),
            TensorData::QuantizedI8 { values, multiplier } => DataContents::QuantizedI8 {
                values: values@,
                multiplier: *multiplier,
            },
        }
    }
}

impl DataContents {
    /// How the numbers are stored.
    pub open spec fn tensor_type(self) -> TensorType {
        match self {
            DataContents::Bytes => TensorType::Int8,
            DataContents::F32(_) => TensorType::Float32,
            DataContents::QuantizedI8 { .. } => TensorType::IntGemm8,
        }
    }
}

impl TensorData {
    /// How the numbers are stored.
    pub fn tensor_type(&self) -> (kind: TensorType)
        ensures
            kind == self@.tensor_type(),
    {
        match self {
            TensorData::Bytes => TensorType::Int8,
            TensorData::F32(_) => TensorType::Float32,
            TensorData::QuantizedI8 { .. } => TensorType::IntGemm8,
        }
    }
}

/// A named tensor.
#[derive(Debug)]
pub struct Tensor {
    /// Name in the archive.
    pub name: String,
    /// Dimensions, slowest first.
    pub shape: Vec<usize>,
    /// Numbers.
    pub data: TensorData,
}

/// A named tensor, with its texts and lists as sequences.
#[verifier::ext_equal]
pub struct TensorContents {
    /// Name in the archive.
    pub name: Seq<char>,
    /// Dimensions, slowest first.
    pub shape: Seq<usize>,
    /// Numbers.
    pub data: DataContents,
}

impl View for Tensor {
    type V = TensorContents;

    open spec fn view(&self) -> TensorContents {
        TensorContents { name: self.name@, shape: self.shape@, data: self.data@ }
    }
}

/// The number of elements of a shape; `None` where it, or the number of
/// elements of its leading dimensions, is too large for this machine.
pub open spec fn elements_of(shape: Seq<usize>) -> Option<nat>
    decreases shape.len(),
{
    if shape.len() == 0 {
        Some(1)
    } else {
        match elements_of(shape.drop_last()) {
            None => None,
            Some(total) => if total * shape.last() > usize::MAX {
                None
            } else {
                Some((total * shape.last()) as nat)
            },
        }
    }
}

/// Leading dimensions have a number of elements wherever all dimensions have
/// one.
proof fn leading_elements(shape: Seq<usize>, count: int)
    requires
        0 <= count <= shape.len(),
        elements_of(shape) is Some,
    ensures
        elements_of(shape.take(count)) is Some,
    decreases shape.len(),
{
    if count < shape.len() {
        leading_elements(shape.drop_last(), count);
        assert(shape.drop_last().take(count) == shape.take(count));
    } else {
        assert(shape.take(count) == shape);
    }
}

/// The number of elements of a shape.
fn product(shape: &[usize]) -> (total: Option<usize>)
    ensures
        match total {
            Some(total) => elements_of(shape@) == Some(total as nat),
            None => elements_of(shape@) is None,
        },
{
    let mut total: usize = 1;
    let mut index: usize = 0;
    while index < shape.len()
        invariant
            index <= shape@.len(),
            elements_of(shape@.take(index as int)) == Some(total as nat),
        decreases shape@.len() - index,
    {
        proof {
            assert(shape@.take(index + 1).drop_last() == shape@.take(index as int));
        }
        match total.checked_mul(shape[index]) {
            Some(product) => {
                total = product;
            },
            None => {
                proof {
                    if elements_of(shape@) is Some {
                        leading_elements(shape@, index + 1);
                    }
                }
                return None;
            },
        }
        index = index + 1;
    }
    proof {
        assert(shape@.take(index as int) == shape@);
    }
    Some(total)
}

/// The number of elements of a shape, checked.
pub fn checked_elements(shape: &[usize]) -> (total: Result<usize, LoadError>)
    ensures
        match total {
            Ok(total) => elements_of(shape@) == Some(total as nat),
            Err(error) => elements_of(shape@) is None && error@ == malformed(
                "tensor shape overflows usize"@,
            ),
        },
{
    match product(shape) {
        Some(total) => Ok(total),
        None => Err(LoadError::InvalidModel(String::from_str("tensor shape overflows usize"))),
    }
}

/// No dimension is zero.
pub open spec fn positive(shape: Seq<usize>) -> bool {
    forall|d: int| 0 <= d < shape.len() ==> #[trigger] shape[d] > 0
}

impl TensorContents {
    /// The tensor has as many numbers as its shape asks for, and a quantized
    /// one has a finite positive multiplier.
    pub open spec fn well_formed(self) -> bool {
        positive(self.shape) && match elements_of(self.shape) {
            None => false,
            Some(count) => match self.data {
                DataContents::Bytes => true,
                DataContents::F32(values) => values.len() == count,
                DataContents::QuantizedI8 { values, multiplier } => values.len() == count
                    && finite_and_positive(multiplier),
            },
        }
    }
}

impl Tensor {
    /// The number of elements.
    pub fn element_count(&self) -> (count: usize)
        requires
            elements_of(self.shape@) is Some,
        ensures
            elements_of(self.shape@) == Some(count as nat),
    {
        match product(self.shape.as_slice()) {
            Some(count) => count,
            None => 0,
        }
    }

    /// How the numbers are stored.
    pub fn tensor_type(&self) -> (kind: TensorType)
        ensures
            kind == self@.data.tensor_type(),
    {
        self.data.tensor_type()
    }
}

/// The error for a payload that is too short for its tensor.
pub open spec fn payload_too_short(name: Seq<char>, actual: usize, required: nat) -> LoadFault {
    malformed(
        "tensor "@ + name + " payload is "@ + decimal_text(actual as nat)
            + " bytes, expected at least "@ + decimal_text(required),
    )
}

/// Checks that a payload is long enough.
///
/// Marian item payloads may have alignment padding behind the tensor's data,
/// hence `actual` may be larger than `required`.
pub fn ensure_payload(name: &str, actual: usize, required: usize) -> (checked: Result<
    (),
    LoadError,
>)
    ensures
        match checked {
            Ok(_) => actual >= required,
            Err(error) => actual < required && error@ == payload_too_short(
                name@,
                actual,
                required as nat,
            ),
        },
{
    if actual < required {
        Err(
            LoadError::InvalidModel(
                String::from_str("tensor ").concat(name).concat(" payload is ").concat(
                    decimal_usize(actual).as_str(),
                ).concat(" bytes, expected at least ").concat(decimal_usize(required).as_str()),
            ),
        )
    } else {
        Ok(())
    }
}

/// The bytes without one final NUL.
pub open spec fn without_nul(bytes: Seq<u8>) -> Seq<u8> {
    if bytes.len() > 0 && bytes.last() == 0 {
        bytes.drop_last()
    } else {
        bytes
    }
}

/// Drops one final NUL byte.
pub fn trim_nul(bytes: &[u8]) -> (trimmed: &[u8])
    ensures
        trimmed@ == without_nul(bytes@),
{
    let len: usize = bytes.len();
    if len > 0 && bytes[len - 1] == 0 {
        vstd::slice::slice_subrange(bytes, 0, len - 1)
    } else {
        bytes
    }
}

/// The error for a tensor whose payload could not be addressed.
pub open spec fn tensor_too_large(name: Seq<char>) -> LoadFault {
    malformed("tensor "@ + name + " is too large"@)
}

/// The first `count` 32-bit patterns of a payload.
pub open spec fn patterns(payload: Seq<u8>, count: nat) -> Seq<u32> {
    Seq::new(count, |i: int| le32(payload, 4 * i) as u32)
}

/// The first `count` bytes of a payload as signed numbers.
pub open spec fn weights(payload: Seq<u8>, count: nat) -> Seq<i8> {
    Seq::new(count, |i: int| signed8(payload[i]))
}

/// The numbers of a tensor with `count` elements, read from its payload.
pub open spec fn data_of(header: Header, name: Seq<char>, count: nat, payload: Seq<u8>) -> Result<
    DataContents,
    LoadFault,
> {
    if header.type_code == TYPE_INT8 {
        if header.data_len < count {
            Err(payload_too_short(name, header.data_len, count))
        } else {
            Ok(DataContents::Bytes)
        }
    } else if header.type_code == TYPE_FLOAT32 {
        if 4 * count > usize::MAX {
            Err(tensor_too_large(name))
        } else if header.data_len < 4 * count {
            Err(payload_too_short(name, header.data_len, 4 * count))
        } else {
            Ok(DataContents::F32(patterns(payload, count)))
        }
    } else if header.type_code == TYPE_INTGEMM8 {
        let multiplier = le32(payload, count as int) as u32;
        if count + 4 > usize::MAX {
            Err(tensor_too_large(name))
        } else if header.data_len < count + 4 {
            Err(payload_too_short(name, header.data_len, count + 4))
        } else if !finite_and_positive(multiplier) {
            Err(
                malformed(
                    "tensor "@ + name + " has invalid quantization multiplier "@ + float_text(
                        multiplier,
                    ),
                ),
            )
        } else {
            Ok(DataContents::QuantizedI8 { values: weights(payload, count), multiplier })
        }
    } else {
        Err(
            malformed(
                "tensor "@ + name + " uses unsupported type code "@ + decimal_text(
                    header.type_code as nat,
                ),
            ),
        )
    }
}

/// The tensor that an item holds.
pub open spec fn tensor_of(
    header: Header,
    name: Seq<char>,
    shape: Seq<usize>,
    payload: Seq<u8>,
) -> Result<TensorContents, LoadFault> {
    match elements_of(shape) {
        None => Err(malformed("tensor shape overflows usize"@)),
        Some(count) => match data_of(header, name, count, payload) {
            Err(fault) => Err(fault),
            Ok(data) => Ok(TensorContents { name, shape, data }),
        },
    }
}

/// Reads the first `count` 32-bit patterns of a payload.
fn read_patterns(payload: &[u8], count: usize) -> (values: Vec<u32>)
    requires
        4 * count <= payload@.len(),
    ensures
        values@ == patterns(payload@, count as nat),
{
    let mut values: Vec<u32> = Vec::with_capacity(count);
    while values.len() < count
        invariant
            values@.len() <= count,
            4 * count <= payload@.len(),
            values@ == patterns(payload@, values@.len()),
        decreases count - values@.len(),
    {
        proof {
            assert(payload.len() == payload@.len());
        }
        values.push(word32(payload, 4 * values.len()));
    }
    values
}

/// Reads the first `count` bytes of a payload as signed numbers.
fn read_weights(payload: &[u8], count: usize) -> (values: Vec<i8>)
    requires
        count <= payload@.len(),
    ensures
        values@ == weights(payload@, count as nat),
{
    let mut values: Vec<i8> = Vec::with_capacity(count);
    while values.len() < count
        invariant
            values@.len() <= count <= payload@.len(),
            values@ == weights(payload@, values@.len()),
        decreases count - values@.len(),
    {
        values.push(to_signed8(payload[values.len()]));
    }
    values
}

/// Reads the numbers of a tensor with `count` elements.
fn parse_data(header: &Header, name: &String, count: usize, payload: &[u8]) -> (read: Result<
    TensorData,
    LoadError,
>)
    requires
        header.data_len <= payload@.len(),
    ensures
        match read {
            Ok(data) => data_of(*header, name@, count as nat, payload@) == Ok::<
                DataContents,
                LoadFault,
            >(data@),
            Err(error) => data_of(*header, name@, count as nat, payload@) == Err::<
                DataContents,
                LoadFault,
            >(error@),
        },
{
    if header.type_code == TYPE_INT8 {
        ensure_payload(name.as_str(), header.data_len, count)?;
        return Ok(TensorData::Bytes);
    }
    if header.type_code == TYPE_FLOAT32 {
        return match count.checked_mul(4) {
            None => Err(
                LoadError::InvalidModel(
                    String::from_str("tensor ").concat(name.as_str()).concat(" is too large"),
                ),
            ),
            Some(byte_count) => {
                ensure_payload(name.as_str(), header.data_len, byte_count)?;
                Ok(TensorData::F32(read_patterns(payload, count)))
            },
        };
    }
    if header.type_code == TYPE_INTGEMM8 {
        return match count.checked_add(4) {
            None => Err(
                LoadError::InvalidModel(
                    String::from_str("tensor ").concat(name.as_str()).concat(" is too large"),
                ),
            ),
            Some(required) => {
                ensure_payload(name.as_str(), header.data_len, required)?;
                let multiplier: u32 = word32(payload, count);
                if !is_finite_and_positive(multiplier) {
                    return Err(
                        LoadError::InvalidModel(
                            String::from_str("tensor ").concat(name.as_str()).concat(
                                " has invalid quantization multiplier ",
                            ).concat(show_float(multiplier).as_str()),
                        ),
                    );
                }
                Ok(TensorData::QuantizedI8 { values: read_weights(payload, count), multiplier })
            },
        };
    }
    Err(
        LoadError::InvalidModel(
            String::from_str("tensor ").concat(name.as_str()).concat(
                " uses unsupported type code ",
            ).concat(decimal(header.type_code).as_str()),
        ),
    )
}

/// Reads the tensor that an item holds.
pub fn parse_tensor(header: &Header, name: String, shape: Vec<usize>, payload: Vec<u8>) -> (read:
    Result<Tensor, LoadError>)
    requires
        header.data_len <= payload@.len(),
    ensures
        match read {
            Ok(tensor) => tensor_of(*header, name@, shape@, payload@) == Ok::<
                TensorContents,
                LoadFault,
            >(tensor@),
            Err(error) => tensor_of(*header, name@, shape@, payload@) == Err::<
                TensorContents,
                LoadFault,
            >(error@),
        },
{
    let count: usize = checked_elements(shape.as_slice())?;
    let data: TensorData = parse_data(header, &name, count, payload.as_slice())?;
    Ok(Tensor { name, shape, data })
}

/// Every tensor that an item holds is well formed.
pub proof fn parsed_tensors_are_well_formed(
    header: Header,
    name: Seq<char>,
    shape: Seq<usize>,
    payload: Seq<u8>,
)
    requires
        positive(shape),
        tensor_of(header, name, shape, payload) is Ok,
    ensures
        (tensor_of(header, name, shape, payload)->Ok_0).well_formed(),
{
}

/// Name of the item that holds the configuration.
pub open spec fn config_name() -> Seq<char> {
    "special:model.yml"@
}

/// Tensors by name.
pub open spec fn by_name(tensors: Seq<Tensor>) -> Map<Seq<char>, TensorContents>
    decreases tensors.len(),
{
    if tensors.len() == 0 {
        Map::empty()
    } else {
        by_name(tensors.drop_last()).insert(tensors.last().name@, tensors.last()@)
    }
}

/// No two tensors have the same name.
pub open spec fn distinct(tensors: Seq<Tensor>) -> bool {
    forall|i: int, j: int|
        0 <= i < j < tensors.len() ==> #[trigger] tensors[i].name@ != #[trigger] tensors[j].name@
}

proof fn found_by_name(tensors: Seq<Tensor>)
    requires
        distinct(tensors),
    ensures
        forall|i: int|
            0 <= i < tensors.len() ==> by_name(tensors).contains_key(
                #[trigger] tensors[i].name@,
            ) && by_name(tensors)[tensors[i].name@] == tensors[i]@,
        forall|name: Seq<char>| #[trigger]
            by_name(tensors).contains_key(name) ==> exists|i: int|
                0 <= i < tensors.len() && #[trigger] tensors[i].name@ == name,
    decreases tensors.len(),
{
    if tensors.len() > 0 {
        let shorter = tensors.drop_last();
        assert(distinct(shorter)) by {
            assert forall|i: int, j: int| 0 <= i < j < shorter.len() implies #[trigger] shorter[i].name@
                != #[trigger] shorter[j].name@ by {
                assert(tensors[i].name@ != tensors[j].name@);
            }
        }
        found_by_name(shorter);
        let last = tensors.len() - 1;
        assert forall|i: int| 0 <= i < tensors.len() implies by_name(tensors).contains_key(
            #[trigger] tensors[i].name@,
        ) && by_name(tensors)[tensors[i].name@] == tensors[i]@ by {
            if i < last {
                assert(tensors[i].name@ != tensors[last].name@);
                assert(shorter[i].name@ == tensors[i].name@);
            }
        }
        assert forall|name: Seq<char>| #[trigger]
            by_name(tensors).contains_key(name) implies exists|i: int|
            0 <= i < tensors.len() && #[trigger] tensors[i].name@ == name by {
            if name == tensors[last].name@ {
                assert(tensors[last].name@ == name);
            } else {
                assert(by_name(shorter).contains_key(name));
                let i = choose|i: int| 0 <= i < shorter.len() && #[trigger] shorter[i].name@ == name;
                assert(tensors[i].name@ == name);
            }
        }
    }
}

proof fn removed_by_name(tensors: Seq<Tensor>, at: int)
    requires
        distinct(tensors),
        0 <= at < tensors.len(),
    ensures
        distinct(tensors.remove(at)),
        by_name(tensors.remove(at)) == by_name(tensors).remove(tensors[at].name@),
    decreases tensors.len(),
{
    let rest = tensors.remove(at);
    let name = tensors[at].name@;
    assert(distinct(rest)) by {
        assert forall|i: int, j: int| 0 <= i < j < rest.len() implies #[trigger] rest[i].name@
            != #[trigger] rest[j].name@ by {
            let before_i = if i < at {
                i
            } else {
                i + 1
            };
            let before_j = if j < at {
                j
            } else {
                j + 1
            };
            assert(tensors[before_i].name@ != tensors[before_j].name@);
        }
    }
    found_by_name(tensors);
    found_by_name(rest);
    let expected = by_name(tensors).remove(name);
    assert forall|key: Seq<char>| #[trigger] by_name(rest).contains_key(key)
        == expected.contains_key(key) by {
        if by_name(rest).contains_key(key) {
            let i = choose|i: int| 0 <= i < rest.len() && #[trigger] rest[i].name@ == key;
            let before = if i < at {
                i
            } else {
                i + 1
            };
            assert(tensors[before].name@ == key);
            assert(tensors[before].name@ != tensors[at].name@);
        }
        if expected.contains_key(key) {
            let i = choose|i: int| 0 <= i < tensors.len() && #[trigger] tensors[i].name@ == key;
            let after = if i < at {
                i
            } else {
                i - 1
            };
            assert(rest[after].name@ == key);
        }
    }
    assert forall|key: Seq<char>| #[trigger] by_name(rest).contains_key(key) implies by_name(
        rest,
    )[key] == expected[key] by {
        let i = choose|i: int| 0 <= i < rest.len() && #[trigger] rest[i].name@ == key;
        let before = if i < at {
            i
        } else {
            i + 1
        };
        assert(rest[i] == tensors[before]);
        assert(tensors[before].name@ == key);
    }
    assert(by_name(rest) =~= expected);
}

/// Looks a tensor up by its name.
fn position_of(tensors: &Vec<Tensor>, name: &str) -> (position: Option<usize>)
    requires
        distinct(tensors@),
    ensures
        match position {
            Some(position) => position < tensors@.len() && tensors@[position as int].name@ == name@
                && by_name(tensors@).contains_key(name@) && by_name(tensors@)[name@]
                == tensors@[position as int]@,
            None => !by_name(tensors@).contains_key(name@),
        },
{
    let wanted: String = String::from_str(name);
    proof {
        found_by_name(tensors@);
    }
    let mut index: usize = 0;
    while index < tensors.len()
        invariant
            index <= tensors@.len(),
            distinct(tensors@),
            wanted@ == name@,
            forall|i: int| 0 <= i < index ==> #[trigger] tensors@[i].name@ != name@,
        decreases tensors@.len() - index,
    {
        if tensors[index].name == wanted {
            proof {
                found_by_name(tensors@);
            }
            return Some(index);
        }
        index = index + 1;
    }
    None
}

/// What the items of an archive hold, and the bytes behind them.
#[verifier::ext_equal]
pub struct Items {
    /// Tensors by name.
    pub tensors: Map<Seq<char>, TensorContents>,
    /// Configuration.
    pub config: Option<ModelConfig>,
    /// Bytes behind the last item.
    pub rest: Seq<u8>,
}

/// The items from position `at` on, behind those already read, give the
/// outcome, where `parse` answers what a configuration text says.
pub open spec fn items_give<F: Fn(&str) -> Result<ModelConfig, LoadError>>(
    parse: F,
    headers: Seq<Header>,
    names: Seq<Seq<char>>,
    shapes: Seq<Seq<usize>>,
    at: nat,
    done: Items,
    outcome: Result<Items, LoadFault>,
) -> bool
    decreases headers.len() - at,
{
    if at >= headers.len() {
        outcome == Ok::<Items, LoadFault>(done)
    } else {
        let header = headers[at as int];
        let name = names[at as int];
        let payload = done.rest.take(header.data_len as int);
        let rest = done.rest.skip(header.data_len as int);
        if done.rest.len() < header.data_len {
            outcome == Err::<Items, LoadFault>(cut_short())
        } else if name == config_name() {
            if !valid_utf8(without_nul(payload)) {
                outcome == Err::<Items, LoadFault>(malformed("special:model.yml is not UTF-8"@))
            } else {
                exists|text: &str, answer: Result<ModelConfig, LoadError>|
                    {
                        &&& text@ == decode_utf8(without_nul(payload))
                        &&& #[trigger] call_ensures(parse, (text,), answer)
                        &&& match answer {
                            Err(error) => outcome == Err::<Items, LoadFault>(error@),
                            Ok(config) => items_give(
                                parse,
                                headers,
                                names,
                                shapes,
                                at + 1,
                                Items { tensors: done.tensors, config: Some(config), rest },
                                outcome,
                            ),
                        }
                    }
            }
        } else {
            match tensor_of(header, name, shapes[at as int], payload) {
                Err(fault) => outcome == Err::<Items, LoadFault>(fault),
                Ok(tensor) => if done.tensors.contains_key(name) {
                    outcome == Err::<Items, LoadFault>(malformed("duplicate tensor "@ + name))
                } else {
                    items_give(
                        parse,
                        headers,
                        names,
                        shapes,
                        at + 1,
                        Items { tensors: done.tensors.insert(name, tensor), config: done.config, rest },
                        outcome,
                    )
                },
            }
        }
    }
}

/// One item of an archive.
enum Item {
    /// The configuration.
    Config(ModelConfig),
    /// A tensor.
    Tensor(Tensor),
}

/// What the next item gives, where `parse` answers what a configuration text
/// says.
spec fn item_gives<F: Fn(&str) -> Result<ModelConfig, LoadError>>(
    parse: F,
    header: Header,
    name: Seq<char>,
    shape: Seq<usize>,
    tensors: Map<Seq<char>, TensorContents>,
    rest: Seq<u8>,
    outcome: Result<Item, LoadFault>,
) -> bool {
    let payload = rest.take(header.data_len as int);
    if rest.len() < header.data_len {
        outcome == Err::<Item, LoadFault>(cut_short())
    } else if name == config_name() {
        if !valid_utf8(without_nul(payload)) {
            outcome == Err::<Item, LoadFault>(malformed("special:model.yml is not UTF-8"@))
        } else {
            exists|text: &str, answer: Result<ModelConfig, LoadError>|
                {
                    &&& text@ == decode_utf8(without_nul(payload))
                    &&& #[trigger] call_ensures(parse, (text,), answer)
                    &&& match answer {
                        Err(error) => outcome == Err::<Item, LoadFault>(error@),
                        Ok(config) => outcome == Ok::<Item, LoadFault>(Item::Config(config)),
                    }
                }
        }
    } else {
        match tensor_of(header, name, shape, payload) {
            Err(fault) => outcome == Err::<Item, LoadFault>(fault),
            Ok(contents) => if tensors.contains_key(name) {
                outcome == Err::<Item, LoadFault>(malformed("duplicate tensor "@ + name))
            } else {
                outcome matches Ok(Item::Tensor(tensor)) && tensor@ == contents
            },
        }
    }
}

/// Reads the next item.
fn read_item<F: Fn(&str) -> Result<ModelConfig, LoadError>>(
    reader: &mut HashingReader,
    header: &Header,
    name: &String,
    shape: &Vec<usize>,
    tensors: &Vec<Tensor>,
    parse: &F,
) -> (read: Result<Item, LoadError>)
    requires
        old(reader).valid(),
        distinct(tensors@),
        forall|text: &str| call_requires(parse, (text,)),
    ensures
        final(reader).valid(),
        final(reader).whole() == old(reader).whole(),
        read is Ok ==> final(reader)@ == old(reader)@.skip(header.data_len as int),
        item_gives(
            *parse,
            *header,
            name@,
            shape@,
            by_name(tensors@),
            old(reader)@,
            match read {
                Ok(item) => Ok(item),
                Err(error) => Err(error@),
            },
        ),
{
    let payload: Vec<u8> = reader.read_exact(header.data_len)?;
    let special: String = String::from_str("special:model.yml");
    if *name == special {
        return match text_from_utf8(vstd::slice::slice_to_vec(trim_nul(payload.as_slice()))) {
            None => Err(
                LoadError::InvalidModel(String::from_str("special:model.yml is not UTF-8")),
            ),
            Some(yaml) => match parse(yaml.as_str()) {
                Ok(config) => Ok(Item::Config(config)),
                Err(error) => Err(error),
            },
        };
    }
    let tensor: Tensor = parse_tensor(header, name.clone(), shape.clone(), payload)?;
    if position_of(tensors, name.as_str()).is_some() {
        return Err(
            LoadError::InvalidModel(
                String::from_str("duplicate tensor ").concat(name.as_str()),
            ),
        );
    }
    Ok(Item::Tensor(tensor))
}

/// What was read of the items, and the bytes behind them.
spec fn items_outcome(
    read: Result<(Vec<Tensor>, Option<ModelConfig>), LoadError>,
    rest: Seq<u8>,
) -> Result<Items, LoadFault> {
    match read {
        Ok((tensors, config)) => Ok(Items { tensors: by_name(tensors@), config, rest }),
        Err(error) => Err(error@),
    }
}

/// Reads the items behind the headers.
fn read_items<F: Fn(&str) -> Result<ModelConfig, LoadError>>(
    reader: &mut HashingReader,
    headers: &Vec<Header>,
    names: &Vec<String>,
    shapes: &Vec<Vec<usize>>,
    parse: &F,
) -> (read: Result<(Vec<Tensor>, Option<ModelConfig>), LoadError>)
    requires
        old(reader).valid(),
        names@.len() == headers@.len(),
        shapes@.len() == headers@.len(),
        forall|text: &str| call_requires(parse, (text,)),
    ensures
        final(reader).valid(),
        final(reader).whole() == old(reader).whole(),
        read matches Ok((tensors, _)) ==> distinct(tensors@),
        items_give(
            *parse,
            headers@,
            texts(names@),
            lists(shapes@),
            0,
            (Items { tensors: Map::empty(), config: None, rest: old(reader)@ }),
            items_outcome(read, final(reader)@),
        ),
{
    let mut tensors: Vec<Tensor> = Vec::new();
    let mut config: Option<ModelConfig> = None;
    let ghost start = Items { tensors: Map::empty(), config: None, rest: reader@ };
    let mut at: usize = 0;
    while at < headers.len()
        invariant
            at <= headers@.len(),
            names@.len() == headers@.len(),
            shapes@.len() == headers@.len(),
            forall|text: &str| call_requires(parse, (text,)),
            reader.valid(),
            reader.whole() == old(reader).whole(),
            distinct(tensors@),
            start == (Items { tensors: Map::empty(), config: None, rest: old(reader)@ }),
            forall|outcome: Result<Items, LoadFault>| #[trigger]
                items_give(
                    *parse,
                    headers@,
                    texts(names@),
                    lists(shapes@),
                    at as nat,
                    Items { tensors: by_name(tensors@), config, rest: reader@ },
                    outcome,
                ) ==> items_give(
                    *parse,
                    headers@,
                    texts(names@),
                    lists(shapes@),
                    0,
                    start,
                    outcome,
                ),
        decreases headers@.len() - at,
    {
        let header: &Header = &headers[at];
        let ghost current = Items { tensors: by_name(tensors@), config, rest: reader@ };
        let ghost before = tensors@;
        let item = read_item(
            reader,
            header,
            &names[at],
            &shapes[at],
            &tensors,
            parse,
        );
        match item {
            Ok(Item::Config(parsed)) => {
                config = Some(parsed);
            },
            Ok(Item::Tensor(tensor)) => {
                tensors.push(tensor);
                proof {
                    found_by_name(before);
                    assert(tensors@.drop_last() == before);
                }
            },
            Err(error) => {
                proof {
                    assert(items_give(
                        *parse,
                        headers@,
                        texts(names@),
                        lists(shapes@),
                        at as nat,
                        current,
                        Err::<Items, LoadFault>(error@),
                    ));
                }
                return Err(error);
            },
        }
        at = at + 1;
        proof {
            assert forall|outcome: Result<Items, LoadFault>| #[trigger]
                items_give(
                    *parse,
                    headers@,
                    texts(names@),
                    lists(shapes@),
                    at as nat,
                    Items { tensors: by_name(tensors@), config, rest: reader@ },
                    outcome,
                ) implies items_give(
                *parse,
                headers@,
                texts(names@),
                lists(shapes@),
                0,
                start,
                outcome,
            ) by {
                assert(items_give(
                    *parse,
                    headers@,
                    texts(names@),
                    lists(shapes@),
                    (at - 1) as nat,
                    current,
                    outcome,
                ));
            }
        }
    }
    proof {
        let done = Items { tensors: by_name(tensors@), config, rest: reader@ };
        assert(items_give(
            *parse,
            headers@,
            texts(names@),
            lists(shapes@),
            at as nat,
            done,
            Ok::<Items, LoadFault>(done),
        ));
    }
    Ok((tensors, config))
}

/// Configuration and tensors of an archive.
#[verifier::ext_equal]
pub struct ArchiveContents {
    /// Configuration.
    pub config: ModelConfig,
    /// Tensors by name.
    pub tensors: Map<Seq<char>, TensorContents>,
}

/// What the items give decides what the archive gives: nothing may stand
/// behind them, the hash must be the expected one, and there must be a
/// configuration with usable dimensions.
pub open spec fn items_decide(
    bytes: Seq<u8>,
    expected: Option<Seq<u8>>,
    items: Items,
) -> Result<ArchiveContents, LoadFault> {
    if items.rest.len() > 0 {
        Err(malformed("trailing bytes after Marian payload"@))
    } else if expected is Some && sha256_of(bytes) != expected->0 {
        Err(
            LoadFault::HashMismatch {
                expected: hex_text(expected->0),
                actual: hex_text(sha256_of(bytes)),
            },
        )
    } else {
        match items.config {
            None => Err(malformed("missing special:model.yml metadata"@)),
            Some(config) => if config.well_formed() {
                Ok(ArchiveContents { config, tensors: items.tensors })
            } else {
                Err(config.dimension_fault())
            },
        }
    }
}

/// What stands in front of the items: headers, names and shapes, and the bytes
/// of the items.
pub open spec fn front_matter(bytes: Seq<u8>) -> Result<
    (Seq<Header>, Seq<Seq<char>>, Seq<Seq<usize>>, Seq<u8>),
    LoadFault,
> {
    match next_number(bytes) {
        Err(fault) => Err(fault),
        Ok((version, rest)) => if version != BINARY_FILE_VERSION {
            Err(malformed("unsupported binary version "@ + decimal_text(version)))
        } else {
            match all_headers(rest) {
                Err(fault) => Err(fault),
                Ok((headers, rest)) => match more_names(rest, headers, Seq::empty()) {
                    Err(fault) => Err(fault),
                    Ok((names, rest)) => match more_shapes(rest, headers, Seq::empty()) {
                        Err(fault) => Err(fault),
                        Ok((shapes, rest)) => match next_size(rest, "header padding"@) {
                            Err(fault) => Err(fault),
                            Ok((padding, rest)) => if rest.len() < padding {
                                Err(cut_short())
                            } else {
                                Ok((headers, names, shapes, rest.skip(padding as int)))
                            },
                        },
                    },
                },
            }
        },
    }
}

/// The bytes of an archive give the outcome, where `parse` answers what a
/// configuration text says.
pub open spec fn archive_gives<F: Fn(&str) -> Result<ModelConfig, LoadError>>(
    parse: F,
    bytes: Seq<u8>,
    expected: Option<Seq<u8>>,
    outcome: Result<ArchiveContents, LoadFault>,
) -> bool {
    match front_matter(bytes) {
        Err(fault) => outcome == Err::<ArchiveContents, LoadFault>(fault),
        Ok((headers, names, shapes, rest)) => exists|read: Result<Items, LoadFault>|
            {
                &&& #[trigger] items_give(
                    parse,
                    headers,
                    names,
                    shapes,
                    0,
                    Items { tensors: Map::empty(), config: None, rest },
                    read,
                )
                &&& match read {
                    Err(fault) => outcome == Err::<ArchiveContents, LoadFault>(fault),
                    Ok(items) => outcome == items_decide(bytes, expected, items),
                }
            },
    }
}

/// Compressed bytes are damaged.
pub open spec fn damaged() -> LoadFault {
    malformed("invalid gzip stream"@)
}

/// What a fault in the uncompressed bytes in front of some damage comes to:
/// where they end too early, the damage is met.
pub open spec fn met_damage(fault: LoadFault) -> LoadFault {
    if fault == cut_short() {
        damaged()
    } else {
        fault
    }
}

/// The uncompressed bytes in front of some damage give the fault, where `parse`
/// answers what a configuration text says: what is wrong with them, or else the
/// damage itself.
pub open spec fn damage_gives<F: Fn(&str) -> Result<ModelConfig, LoadError>>(
    parse: F,
    bytes: Seq<u8>,
    fault: LoadFault,
) -> bool {
    match front_matter(bytes) {
        Err(found) => fault == met_damage(found),
        Ok((headers, names, shapes, rest)) => exists|read: Result<Items, LoadFault>|
            {
                &&& #[trigger] items_give(
                    parse,
                    headers,
                    names,
                    shapes,
                    0,
                    Items { tensors: Map::empty(), config: None, rest },
                    read,
                )
                &&& match read {
                    Err(found) => fault == met_damage(found),
                    Ok(items) => fault == if items.rest.len() > 0 {
                        malformed("trailing bytes after Marian payload"@)
                    } else {
                        damaged()
                    },
                }
            },
    }
}

/// Turns a fault in the uncompressed bytes in front of some damage into what it
/// comes to.
fn meet_damage(error: LoadError) -> (met: LoadError)
    ensures
        met@ == met_damage(error@),
{
    match error {
        LoadError::InvalidModel(text) => {
            let end: String = String::from_str("unexpected end of Marian model");
            if text == end {
                LoadError::InvalidModel(String::from_str("invalid gzip stream"))
            } else {
                LoadError::InvalidModel(text)
            }
        },
        error => error,
    }
}

/// Finds what is wrong with an archive of which only the uncompressed bytes in
/// front of some damage are known.
fn find_damage<F: Fn(&str) -> Result<ModelConfig, LoadError>>(start: Vec<u8>, parse: F) -> (error:
    LoadError)
    requires
        forall|text: &str| call_requires(parse, (text,)),
    ensures
        damage_gives(parse, start@, error@),
{
    let mut reader: HashingReader = HashingReader::new(start);
    let (headers, names, shapes) = match read_front_matter(&mut reader) {
        Err(error) => {
            return meet_damage(error);
        },
        Ok(front) => front,
    };
    let ghost front = front_matter(start@)->Ok_0;
    let read = read_items(&mut reader, &headers, &names, &shapes, &parse);
    proof {
        assert(items_give(
            parse,
            front.0,
            front.1,
            front.2,
            0,
            Items { tensors: Map::empty(), config: None, rest: front.3 },
            items_outcome(read, reader@),
        ));
    }
    match read {
        Err(error) => meet_damage(error),
        Ok(_) => if reader.remaining() != 0 {
            LoadError::InvalidModel(String::from_str("trailing bytes after Marian payload"))
        } else {
            LoadError::InvalidModel(String::from_str("invalid gzip stream"))
        },
    }
}

/// The bytes that a caller expects as hash.
pub open spec fn expected_hash(expected: Option<[u8; 32]>) -> Option<Seq<u8>> {
    match expected {
        Some(hash) => Some(hash@),
        None => None,
    }
}

/// Reads what stands in front of the items.
fn read_front_matter(reader: &mut HashingReader) -> (read: Result<
    (Vec<Header>, Vec<String>, Vec<Vec<usize>>),
    LoadError,
>)
    requires
        old(reader).valid(),
    ensures
        final(reader).valid(),
        final(reader).whole() == old(reader).whole(),
        match read {
            Ok((headers, names, shapes)) => {
                &&& names@.len() == headers@.len()
                &&& shapes@.len() == headers@.len()
                &&& front_matter(old(reader)@) == Ok::<
                    (Seq<Header>, Seq<Seq<char>>, Seq<Seq<usize>>, Seq<u8>),
                    LoadFault,
                >((headers@, texts(names@), lists(shapes@), final(reader)@))
            },
            Err(error) => front_matter(old(reader)@) == Err::<
                (Seq<Header>, Seq<Seq<char>>, Seq<Seq<usize>>, Seq<u8>),
                LoadFault,
            >(error@),
        },
{
    let version: u64 = read_u64(reader)?;
    if version != BINARY_FILE_VERSION {
        return Err(
            LoadError::InvalidModel(
                String::from_str("unsupported binary version ").concat(decimal(version).as_str()),
            ),
        );
    }
    let headers: Vec<Header> = read_headers(reader)?;
    let names: Vec<String> = read_names(reader, headers.as_slice())?;
    let shapes: Vec<Vec<usize>> = read_shapes(reader, headers.as_slice())?;
    let padding: usize = read_size(reader, "header padding")?;
    copy_to_sink(reader, padding)?;
    Ok((headers, names, shapes))
}

/// Decides what an archive gives once its items are read.
fn settle(
    reader: HashingReader,
    expected_sha256: Option<[u8; 32]>,
    tensors: Vec<Tensor>,
    config: Option<ModelConfig>,
) -> (settled: Result<ModelArchive, LoadError>)
    requires
        reader.valid(),
        distinct(tensors@),
    ensures
        settled matches Ok(archive) ==> archive.valid(),
        items_decide(
            reader.whole(),
            expected_hash(expected_sha256),
            (Items { tensors: by_name(tensors@), config, rest: reader@ }),
        ) == match settled {
            Ok(archive) => Ok::<ArchiveContents, LoadFault>(archive@),
            Err(error) => Err(error@),
        },
{
    if reader.remaining() != 0 {
        return Err(
            LoadError::InvalidModel(String::from_str("trailing bytes after Marian payload")),
        );
    }
    proof {
        reader.parts_make_whole();
        assert(reader.consumed() + reader@ == reader.consumed());
    }
    let actual_hash: [u8; 32] = reader.finalize();
    if let Some(expected) = expected_sha256 {
        if !same_bytes(actual_hash.as_slice(), expected.as_slice()) {
            return Err(
                LoadError::HashMismatch {
                    expected: hex(expected.as_slice()),
                    actual: hex(actual_hash.as_slice()),
                },
            );
        }
    }
    match config {
        None => Err(
            LoadError::InvalidModel(String::from_str("missing special:model.yml metadata")),
        ),
        Some(config) => {
            config.validate_well_formed()?;
            Ok(ModelArchive { config, tensors })
        },
    }
}

/// A Marian archive before its tensors are consumed by the inference runtime.
#[derive(Debug)]
pub struct ModelArchive {
    /// Configuration.
    pub config: ModelConfig,
    /// Tensors, with distinct names.
    pub tensors: Vec<Tensor>,
}

impl View for ModelArchive {
    type V = ArchiveContents;

    open spec fn view(&self) -> ArchiveContents {
        ArchiveContents { config: self.config, tensors: by_name(self.tensors@) }
    }
}

impl ModelArchive {
    /// No two tensors have the same name.
    pub open spec fn valid(&self) -> bool {
        distinct(self.tensors@)
    }

    /// Parses a Marian v1 binary archive; `parse` reads its configuration
    /// text.
    ///
    /// Fails where decompression, integrity verification, binary parsing or
    /// basic configuration validation fails.
    pub fn load<F: Fn(&str) -> Result<ModelConfig, LoadError>>(
        asset: Asset,
        expected_sha256: Option<[u8; 32]>,
        parse: F,
    ) -> (loaded: Result<ModelArchive, LoadError>)
        requires
            forall|text: &str| call_requires(parse, (text,)),
        ensures
            loaded matches Ok(archive) ==> archive.valid(),
            match asset.content() {
                None => loaded matches Err(error) && damage_gives(parse, asset.start(), error@),
                Some(bytes) => archive_gives(
                    parse,
                    bytes,
                    expected_hash(expected_sha256),
                    match loaded {
                        Ok(archive) => Ok(archive@),
                        Err(error) => Err(error@),
                    },
                ),
            },
            asset.content() matches Some(bytes) ==> forall|
                answers: spec_fn(Seq<char>) -> Result<ModelConfig, LoadFault>,
            | #[trigger]
                answers_by(parse, answers) ==> archive_of(
                    answers,
                    bytes,
                    expected_hash(expected_sha256),
                ) == match loaded {
                    Ok(archive) => Ok::<ArchiveContents, LoadFault>(archive@),
                    Err(error) => Err(error@),
                },
    {
        match asset.open() {
            Ok(bytes) => ModelArchive::from_bytes(bytes, expected_sha256, parse),
            Err(start) => Err(find_damage(start, parse)),
        }
    }

    /// Parses the uncompressed bytes of an archive.
    pub fn from_bytes<F: Fn(&str) -> Result<ModelConfig, LoadError>>(
        bytes: Vec<u8>,
        expected_sha256: Option<[u8; 32]>,
        parse: F,
    ) -> (loaded: Result<ModelArchive, LoadError>)
        requires
            forall|text: &str| call_requires(parse, (text,)),
        ensures
            loaded matches Ok(archive) ==> archive.valid(),
            archive_gives(
                parse,
                bytes@,
                expected_hash(expected_sha256),
                match loaded {
                    Ok(archive) => Ok(archive@),
                    Err(error) => Err(error@),
                },
            ),
            forall|answers: spec_fn(Seq<char>) -> Result<ModelConfig, LoadFault>| #[trigger]
                answers_by(parse, answers) ==> archive_of(
                    answers,
                    bytes@,
                    expected_hash(expected_sha256),
                ) == match loaded {
                    Ok(archive) => Ok::<ArchiveContents, LoadFault>(archive@),
                    Err(error) => Err(error@),
                },
    {
        let mut reader: HashingReader = HashingReader::new(bytes);
        let (headers, names, shapes) = read_front_matter(&mut reader)?;
        let ghost front = front_matter(bytes@)->Ok_0;
        let read = read_items(&mut reader, &headers, &names, &shapes, &parse);
        let ghost outcome = items_outcome(read, reader@);
        proof {
            assert(items_give(
                parse,
                front.0,
                front.1,
                front.2,
                0,
                Items { tensors: Map::empty(), config: None, rest: front.3 },
                outcome,
            ));
            assert forall|answers: spec_fn(Seq<char>) -> Result<ModelConfig, LoadFault>| #[trigger]
                answers_by(parse, answers) implies items_of(
                answers,
                front.0,
                front.1,
                front.2,
                0,
                Items { tensors: Map::empty(), config: None, rest: front.3 },
            ) == outcome by {
                items_follow_answers(
                    parse,
                    answers,
                    front.0,
                    front.1,
                    front.2,
                    0,
                    Items { tensors: Map::empty(), config: None, rest: front.3 },
                    outcome,
                );
            }
        }
        match read {
            Ok((tensors, config)) => {
                let settled = settle(reader, expected_sha256, tensors, config);
                proof {
                    assert(outcome matches Ok(items) && items_decide(
                        bytes@,
                        expected_hash(expected_sha256),
                        items,
                    ) == match settled {
                        Ok(archive) => Ok::<ArchiveContents, LoadFault>(archive@),
                        Err(error) => Err(error@),
                    });
                }
                settled
            },
            Err(error) => Err(error),
        }
    }

    /// The tensor with the given name.
    pub fn tensor(&self, name: &str) -> (found: Option<&Tensor>)
        requires
            self.valid(),
        ensures
            match found {
                Some(tensor) => self@.tensors.contains_key(name@) && self@.tensors[name@]
                    == tensor@,
                None => !self@.tensors.contains_key(name@),
            },
    {
        match position_of(&self.tensors, name) {
            Some(position) => Some(&self.tensors[position]),
            None => None,
        }
    }

    /// The number of tensors.
    pub fn tensor_count(&self) -> (count: usize)
        requires
            self.valid(),
        ensures
            count == self@.tensors.len(),
    {
        proof {
            counted_by_name(self.tensors@);
        }
        self.tensors.len()
    }

    /// Takes the tensor with the given name out of the archive.
    pub fn take_tensor(&mut self, name: &str) -> (taken: Option<Tensor>)
        requires
            old(self).valid(),
        ensures
            final(self).valid(),
            final(self)@.config == old(self)@.config,
            final(self)@.tensors == old(self)@.tensors.remove(name@),
            match taken {
                Some(tensor) => old(self)@.tensors.contains_key(name@) && old(self)@.tensors[name@]
                    == tensor@,
                None => !old(self)@.tensors.contains_key(name@),
            },
    {
        match position_of(&self.tensors, name) {
            Some(position) => {
                proof {
                    removed_by_name(self.tensors@, position as int);
                }
                Some(self.tensors.remove(position))
            },
            None => {
                proof {
                    assert(self@.tensors.remove(name@) == self@.tensors);
                }
                None
            },
        }
    }
}

proof fn counted_by_name(tensors: Seq<Tensor>)
    requires
        distinct(tensors),
    ensures
        by_name(tensors).dom().finite(),
        by_name(tensors).len() == tensors.len(),
    decreases tensors.len(),
{
    if tensors.len() > 0 {
        let shorter = tensors.drop_last();
        let last = tensors.len() - 1;
        assert(distinct(shorter)) by {
            assert forall|i: int, j: int| 0 <= i < j < shorter.len() implies #[trigger] shorter[i].name@
                != #[trigger] shorter[j].name@ by {
                assert(tensors[i].name@ != tensors[j].name@);
            }
        }
        counted_by_name(shorter);
        found_by_name(shorter);
        assert(!by_name(shorter).contains_key(tensors[last].name@)) by {
            if by_name(shorter).contains_key(tensors[last].name@) {
                let i = choose|i: int|
                    0 <= i < shorter.len() && #[trigger] shorter[i].name@ == tensors[last].name@;
                assert(tensors[i].name@ != tensors[last].name@);
            }
        }
    }
}

/// Each tensor is well formed and has the name under which it is found.
pub open spec fn sound(tensors: Map<Seq<char>, TensorContents>) -> bool {
    forall|name: Seq<char>| #[trigger]
        tensors.contains_key(name) ==> tensors[name].well_formed() && tensors[name].name == name
}

proof fn dimensions_are_positive(rest: Seq<u8>, rank: nat, done: Seq<usize>)
    requires
        positive(done),
    ensures
        more_dimensions(rest, rank, done) matches Ok((shape, _)) ==> positive(shape),
    decreases rank - done.len(),
{
    if done.len() < rank {
        if let Ok((dim, rest)) = next_dimension(rest) {
            if dim > 0 {
                dimensions_are_positive(rest, rank, done.push(dim as usize));
            }
        }
    }
}

proof fn shapes_are_positive(rest: Seq<u8>, headers: Seq<Header>, done: Seq<Seq<usize>>)
    requires
        done.len() <= headers.len(),
        forall|k: int| 0 <= k < done.len() ==> positive(#[trigger] done[k]),
    ensures
        more_shapes(rest, headers, done) matches Ok((shapes, _)) ==> shapes.len() == headers.len()
            && forall|k: int| 0 <= k < shapes.len() ==> positive(#[trigger] shapes[k]),
    decreases headers.len() - done.len(),
{
    if done.len() < headers.len() {
        let rank = headers[done.len() as int].shape_len;
        dimensions_are_positive(rest, rank as nat, Seq::empty());
        if let Ok((shape, rest)) = next_shape(rest, rank) {
            shapes_are_positive(rest, headers, done.push(shape));
        }
    }
}

proof fn front_matter_shapes(bytes: Seq<u8>)
    ensures
        front_matter(bytes) matches Ok((headers, _, shapes, _)) ==> shapes.len() == headers.len()
            && forall|k: int| 0 <= k < shapes.len() ==> positive(#[trigger] shapes[k]),
{
    if let Ok((_, rest)) = next_number(bytes) {
        if let Ok((headers, rest)) = all_headers(rest) {
            if let Ok((_, rest)) = more_names(rest, headers, Seq::empty()) {
                shapes_are_positive(rest, headers, Seq::empty());
            }
        }
    }
}

proof fn items_are_sound<F: Fn(&str) -> Result<ModelConfig, LoadError>>(
    parse: F,
    headers: Seq<Header>,
    names: Seq<Seq<char>>,
    shapes: Seq<Seq<usize>>,
    at: nat,
    done: Items,
    outcome: Items,
)
    requires
        items_give(parse, headers, names, shapes, at, done, Ok(outcome)),
        shapes.len() == headers.len(),
        forall|k: int| 0 <= k < shapes.len() ==> positive(#[trigger] shapes[k]),
        sound(done.tensors),
    ensures
        sound(outcome.tensors),
    decreases headers.len() - at,
{
    if at < headers.len() {
        let header = headers[at as int];
        let payload = done.rest.take(header.data_len as int);
        let next = items_go_on(parse, headers, names, shapes, at, done, outcome);
        if names[at as int] != config_name() {
            parsed_tensors_are_well_formed(header, names[at as int], shapes[at as int], payload);
        }
        items_are_sound(parse, headers, names, shapes, at + 1, next, outcome);
    }
}

/// Every archive that loads has usable dimensions and well-formed tensors, and
/// its bytes have the hash that the caller expects, if any.
pub proof fn loaded_archives_are_sound<F: Fn(&str) -> Result<ModelConfig, LoadError>>(
    parse: F,
    bytes: Seq<u8>,
    expected: Option<Seq<u8>>,
    contents: ArchiveContents,
)
    requires
        archive_gives(parse, bytes, expected, Ok(contents)),
    ensures
        contents.config.well_formed(),
        sound(contents.tensors),
        expected matches Some(hash) ==> sha256_of(bytes) == hash,
{
    let items = items_of_loaded(parse, bytes, expected, contents);
    let (headers, names, shapes, rest) = front_matter(bytes)->Ok_0;
    front_matter_shapes(bytes);
    items_are_sound(
        parse,
        headers,
        names,
        shapes,
        0,
        Items { tensors: Map::empty(), config: None, rest },
        items,
    );
}

/// Bytes behind a number do not change it.
proof fn numbers_extend(rest: Seq<u8>, tail: Seq<u8>)
    ensures
        next_number(rest) matches Ok((value, after)) ==> next_number(rest + tail) == Ok::<
            (nat, Seq<u8>),
            LoadFault,
        >((value, after + tail)),
        next_dimension(rest) matches Ok((dim, after)) ==> next_dimension(rest + tail) == Ok::<
            (int, Seq<u8>),
            LoadFault,
        >((dim, after + tail)),
{
    if rest.len() >= 8 {
        assert((rest + tail).skip(8) == rest.skip(8) + tail);
    }
    if rest.len() >= 4 {
        assert((rest + tail).skip(4) == rest.skip(4) + tail);
    }
}

proof fn headers_extend(rest: Seq<u8>, tail: Seq<u8>, count: nat, done: Seq<Header>)
    ensures
        more_headers(rest, count, done) matches Ok((headers, after)) ==> more_headers(
            rest + tail,
            count,
            done,
        ) == Ok::<(Seq<Header>, Seq<u8>), LoadFault>((headers, after + tail)),
    decreases count,
{
    if count > 0 {
        if let Ok((header, after)) = next_header(rest) {
            numbers_extend(rest, tail);
            let first = next_number(rest)->Ok_0.1;
            numbers_extend(first, tail);
            let second = next_number(first)->Ok_0.1;
            numbers_extend(second, tail);
            let third = next_number(second)->Ok_0.1;
            numbers_extend(third, tail);
            assert(next_header(rest + tail) == Ok::<(Header, Seq<u8>), LoadFault>(
                (header, after + tail),
            ));
            headers_extend(after, tail, (count - 1) as nat, done.push(header));
        }
    }
}

proof fn names_extend(
    rest: Seq<u8>,
    tail: Seq<u8>,
    headers: Seq<Header>,
    done: Seq<Seq<char>>,
)
    ensures
        more_names(rest, headers, done) matches Ok((names, after)) ==> more_names(
            rest + tail,
            headers,
            done,
        ) == Ok::<(Seq<Seq<char>>, Seq<u8>), LoadFault>((names, after + tail)),
    decreases headers.len() - done.len(),
{
    if done.len() < headers.len() {
        let len = headers[done.len() as int].name_len;
        if let Ok((name, after)) = next_name(rest, len) {
            assert((rest + tail).take(len - 1) == rest.take(len - 1));
            assert((rest + tail).skip(len as int) == rest.skip(len as int) + tail);
            names_extend(after, tail, headers, done.push(name));
        }
    }
}

proof fn dimensions_extend(rest: Seq<u8>, tail: Seq<u8>, rank: nat, done: Seq<usize>)
    ensures
        more_dimensions(rest, rank, done) matches Ok((shape, after)) ==> more_dimensions(
            rest + tail,
            rank,
            done,
        ) == Ok::<(Seq<usize>, Seq<u8>), LoadFault>((shape, after + tail)),
    decreases rank - done.len(),
{
    if done.len() < rank {
        if let Ok((dim, after)) = next_dimension(rest) {
            numbers_extend(rest, tail);
            if dim > 0 {
                dimensions_extend(after, tail, rank, done.push(dim as usize));
            }
        }
    }
}

proof fn shapes_extend(
    rest: Seq<u8>,
    tail: Seq<u8>,
    headers: Seq<Header>,
    done: Seq<Seq<usize>>,
)
    ensures
        more_shapes(rest, headers, done) matches Ok((shapes, after)) ==> more_shapes(
            rest + tail,
            headers,
            done,
        ) == Ok::<(Seq<Seq<usize>>, Seq<u8>), LoadFault>((shapes, after + tail)),
    decreases headers.len() - done.len(),
{
    if done.len() < headers.len() {
        let rank = headers[done.len() as int].shape_len;
        if let Ok((shape, after)) = next_shape(rest, rank) {
            dimensions_extend(rest, tail, rank as nat, Seq::empty());
            shapes_extend(after, tail, headers, done.push(shape));
        }
    }
}

proof fn front_matter_extends(bytes: Seq<u8>, tail: Seq<u8>)
    ensures
        front_matter(bytes) matches Ok((headers, names, shapes, rest)) ==> front_matter(
            bytes + tail,
        ) == Ok::<(Seq<Header>, Seq<Seq<char>>, Seq<Seq<usize>>, Seq<u8>), LoadFault>(
            (headers, names, shapes, rest + tail),
        ),
{
    if front_matter(bytes) is Ok {
        numbers_extend(bytes, tail);
        let rest = next_number(bytes)->Ok_0.1;
        numbers_extend(rest, tail);
        let (count, behind) = next_size(rest, "item count"@)->Ok_0;
        headers_extend(behind, tail, count as nat, Seq::empty());
        let (headers, rest) = all_headers(rest)->Ok_0;
        names_extend(rest, tail, headers, Seq::empty());
        let rest = more_names(rest, headers, Seq::empty())->Ok_0.1;
        shapes_extend(rest, tail, headers, Seq::empty());
        let rest = more_shapes(rest, headers, Seq::empty())->Ok_0.1;
        numbers_extend(rest, tail);
        let (padding, rest) = next_size(rest, "header padding"@)->Ok_0;
        assert((rest + tail).skip(padding as int) == rest.skip(padding as int) + tail);
    }
}

/// Where the item at a position gives items, so does the next position, behind
/// what the item leaves.
proof fn items_go_on<F: Fn(&str) -> Result<ModelConfig, LoadError>>(
    parse: F,
    headers: Seq<Header>,
    names: Seq<Seq<char>>,
    shapes: Seq<Seq<usize>>,
    at: nat,
    done: Items,
    outcome: Items,
) -> (next: Items)
    requires
        at < headers.len(),
        items_give(parse, headers, names, shapes, at, done, Ok(outcome)),
    ensures
        items_give(parse, headers, names, shapes, at + 1, next, Ok(outcome)),
        done.rest.len() >= headers[at as int].data_len,
        next.rest == done.rest.skip(headers[at as int].data_len as int),
        names[at as int] == config_name() ==> {
            &&& valid_utf8(without_nul(done.rest.take(headers[at as int].data_len as int)))
            &&& next.tensors == done.tensors
            &&& next.config is Some
            &&& exists|text: &str, answer: Result<ModelConfig, LoadError>|
                {
                    &&& text@ == decode_utf8(
                        without_nul(done.rest.take(headers[at as int].data_len as int)),
                    )
                    &&& #[trigger] call_ensures(parse, (text,), answer)
                    &&& answer == Ok::<ModelConfig, LoadError>(next.config->0)
                }
        },
        names[at as int] != config_name() ==> {
            &&& next.config == done.config
            &&& !done.tensors.contains_key(names[at as int])
            &&& tensor_of(
                headers[at as int],
                names[at as int],
                shapes[at as int],
                done.rest.take(headers[at as int].data_len as int),
            ) matches Ok(tensor) && next.tensors == done.tensors.insert(names[at as int], tensor)
        },
{
    let header = headers[at as int];
    let name = names[at as int];
    let payload = done.rest.take(header.data_len as int);
    let rest = done.rest.skip(header.data_len as int);
    if name == config_name() {
        let (text, answer): (&str, Result<ModelConfig, LoadError>) = choose|
            text: &str,
            answer: Result<ModelConfig, LoadError>,
        |
            {
                &&& text@ == decode_utf8(without_nul(payload))
                &&& #[trigger] call_ensures(parse, (text,), answer)
                &&& match answer {
                    Err(error) => Ok::<Items, LoadFault>(outcome) == Err::<Items, LoadFault>(
                        error@,
                    ),
                    Ok(config) => items_give(
                        parse,
                        headers,
                        names,
                        shapes,
                        at + 1,
                        Items { tensors: done.tensors, config: Some(config), rest },
                        Ok(outcome),
                    ),
                }
            };
        Items { tensors: done.tensors, config: Some(answer->Ok_0), rest }
    } else {
        let tensor = tensor_of(header, name, shapes[at as int], payload)->Ok_0;
        Items { tensors: done.tensors.insert(name, tensor), config: done.config, rest }
    }
}

proof fn items_extend<F: Fn(&str) -> Result<ModelConfig, LoadError>>(
    parse: F,
    headers: Seq<Header>,
    names: Seq<Seq<char>>,
    shapes: Seq<Seq<usize>>,
    at: nat,
    short: Items,
    short_outcome: Items,
    long: Items,
    long_outcome: Items,
    tail: Seq<u8>,
)
    requires
        items_give(parse, headers, names, shapes, at, short, Ok(short_outcome)),
        items_give(parse, headers, names, shapes, at, long, Ok(long_outcome)),
        long.rest == short.rest + tail,
    ensures
        long_outcome.rest == short_outcome.rest + tail,
    decreases headers.len() - at,
{
    if at < headers.len() {
        let len = headers[at as int].data_len as int;
        let next_short = items_go_on(parse, headers, names, shapes, at, short, short_outcome);
        let next_long = items_go_on(parse, headers, names, shapes, at, long, long_outcome);
        assert(next_long.rest == next_short.rest + tail);
        items_extend(
            parse,
            headers,
            names,
            shapes,
            at + 1,
            next_short,
            short_outcome,
            next_long,
            long_outcome,
            tail,
        );
    }
}

/// The items of an archive that loads: they leave no bytes, and their
/// configuration is the archive's.
proof fn items_of_loaded<F: Fn(&str) -> Result<ModelConfig, LoadError>>(
    parse: F,
    bytes: Seq<u8>,
    expected: Option<Seq<u8>>,
    contents: ArchiveContents,
) -> (items: Items)
    requires
        archive_gives(parse, bytes, expected, Ok(contents)),
    ensures
        front_matter(bytes) matches Ok((headers, names, shapes, rest)) && items_give(
            parse,
            headers,
            names,
            shapes,
            0,
            Items { tensors: Map::empty(), config: None, rest },
            Ok(items),
        ),
        items_decide(bytes, expected, items) == Ok::<ArchiveContents, LoadFault>(contents),
{
    let (headers, names, shapes, rest) = front_matter(bytes)->Ok_0;
    let start = Items { tensors: Map::empty(), config: None, rest };
    let read = choose|read: Result<Items, LoadFault>|
        {
            &&& #[trigger] items_give(parse, headers, names, shapes, 0, start, read)
            &&& match read {
                Err(fault) => Ok::<ArchiveContents, LoadFault>(contents) == Err::<
                    ArchiveContents,
                    LoadFault,
                >(fault),
                Ok(items) => Ok::<ArchiveContents, LoadFault>(contents) == items_decide(
                    bytes,
                    expected,
                    items,
                ),
            }
        };
    read->Ok_0
}

/// No bytes may follow an archive: with any bytes behind it, an archive that
/// loads does not load.
pub proof fn extended_archives_do_not_load<F: Fn(&str) -> Result<ModelConfig, LoadError>>(
    parse: F,
    bytes: Seq<u8>,
    expected: Option<Seq<u8>>,
    contents: ArchiveContents,
    tail: Seq<u8>,
    expected_longer: Option<Seq<u8>>,
    outcome: Result<ArchiveContents, LoadFault>,
)
    requires
        archive_gives(parse, bytes, expected, Ok(contents)),
        tail.len() > 0,
        archive_gives(parse, bytes + tail, expected_longer, outcome),
    ensures
        outcome is Err,
{
    if let Ok(longer) = outcome {
        let items = items_of_loaded(parse, bytes, expected, contents);
        let more = items_of_loaded(parse, bytes + tail, expected_longer, longer);
        front_matter_extends(bytes, tail);
        let (headers, names, shapes, rest) = front_matter(bytes)->Ok_0;
        items_extend(
            parse,
            headers,
            names,
            shapes,
            0,
            Items { tensors: Map::empty(), config: None, rest },
            items,
            Items { tensors: Map::empty(), config: None, rest: rest + tail },
            more,
            tail,
        );
        assert(more.rest.len() > 0);
    }
}

/// An archive must be whole: no beginning of an archive that loads does load.
#[verifier::spinoff_prover]
#[verifier::rlimit(30)]
pub proof fn shortened_archives_do_not_load<F: Fn(&str) -> Result<ModelConfig, LoadError>>(
    parse: F,
    bytes: Seq<u8>,
    expected: Option<Seq<u8>>,
    contents: ArchiveContents,
    len: int,
    expected_shorter: Option<Seq<u8>>,
    outcome: Result<ArchiveContents, LoadFault>,
)
    requires
        archive_gives(parse, bytes, expected, Ok(contents)),
        0 <= len < bytes.len(),
        archive_gives(parse, bytes.take(len), expected_shorter, outcome),
    ensures
        outcome is Err,
{
    if let Ok(shorter) = outcome {
        assert(bytes.take(len) + bytes.skip(len) == bytes);
        extended_archives_do_not_load(
            parse,
            bytes.take(len),
            expected_shorter,
            shorter,
            bytes.skip(len),
            expected,
            Ok(contents),
        );
    }
}

/// The items from position `at` on, behind those already read, where `answers`
/// says what a configuration text gives.
pub open spec fn items_of(
    answers: spec_fn(Seq<char>) -> Result<ModelConfig, LoadFault>,
    headers: Seq<Header>,
    names: Seq<Seq<char>>,
    shapes: Seq<Seq<usize>>,
    at: nat,
    done: Items,
) -> Result<Items, LoadFault>
    decreases headers.len() - at,
{
    if at >= headers.len() {
        Ok(done)
    } else {
        let header = headers[at as int];
        let name = names[at as int];
        let payload = done.rest.take(header.data_len as int);
        let rest = done.rest.skip(header.data_len as int);
        if done.rest.len() < header.data_len {
            Err(cut_short())
        } else if name == config_name() {
            if !valid_utf8(without_nul(payload)) {
                Err(malformed("special:model.yml is not UTF-8"@))
            } else {
                match answers(decode_utf8(without_nul(payload))) {
                    Err(fault) => Err(fault),
                    Ok(config) => items_of(
                        answers,
                        headers,
                        names,
                        shapes,
                        at + 1,
                        Items { tensors: done.tensors, config: Some(config), rest },
                    ),
                }
            }
        } else {
            match tensor_of(header, name, shapes[at as int], payload) {
                Err(fault) => Err(fault),
                Ok(tensor) => if done.tensors.contains_key(name) {
                    Err(malformed("duplicate tensor "@ + name))
                } else {
                    items_of(
                        answers,
                        headers,
                        names,
                        shapes,
                        at + 1,
                        Items { tensors: done.tensors.insert(name, tensor), config: done.config, rest },
                    )
                },
            }
        }
    }
}

/// What the bytes of an archive give, where `answers` says what a configuration
/// text gives.
pub open spec fn archive_of(
    answers: spec_fn(Seq<char>) -> Result<ModelConfig, LoadFault>,
    bytes: Seq<u8>,
    expected: Option<Seq<u8>>,
) -> Result<ArchiveContents, LoadFault> {
    match front_matter(bytes) {
        Err(fault) => Err(fault),
        Ok((headers, names, shapes, rest)) => match items_of(
            answers,
            headers,
            names,
            shapes,
            0,
            Items { tensors: Map::empty(), config: None, rest },
        ) {
            Err(fault) => Err(fault),
            Ok(items) => items_decide(bytes, expected, items),
        },
    }
}

/// What `parse` answers to a text is what `answers` says of it.
pub open spec fn answers_by<F: Fn(&str) -> Result<ModelConfig, LoadError>>(
    parse: F,
    answers: spec_fn(Seq<char>) -> Result<ModelConfig, LoadFault>,
) -> bool {
    forall|text: &str, answer: Result<ModelConfig, LoadError>| #[trigger]
        call_ensures(parse, (text,), answer) ==> answers(text@) == match answer {
            Ok(config) => Ok::<ModelConfig, LoadFault>(config),
            Err(error) => Err(error@),
        }
}

proof fn items_follow_answers<F: Fn(&str) -> Result<ModelConfig, LoadError>>(
    parse: F,
    answers: spec_fn(Seq<char>) -> Result<ModelConfig, LoadFault>,
    headers: Seq<Header>,
    names: Seq<Seq<char>>,
    shapes: Seq<Seq<usize>>,
    at: nat,
    done: Items,
    outcome: Result<Items, LoadFault>,
)
    requires
        answers_by(parse, answers),
        items_give(parse, headers, names, shapes, at, done, outcome),
    ensures
        items_of(answers, headers, names, shapes, at, done) == outcome,
    decreases headers.len() - at,
{
    if at < headers.len() {
        let header = headers[at as int];
        let name = names[at as int];
        let payload = done.rest.take(header.data_len as int);
        let rest = done.rest.skip(header.data_len as int);
        if done.rest.len() < header.data_len {
        } else if name == config_name() {
            if valid_utf8(without_nul(payload)) {
                let (text, answer): (&str, Result<ModelConfig, LoadError>) = choose|
                    text: &str,
                    answer: Result<ModelConfig, LoadError>,
                |
                    {
                        &&& text@ == decode_utf8(without_nul(payload))
                        &&& #[trigger] call_ensures(parse, (text,), answer)
                        &&& match answer {
                            Err(error) => outcome == Err::<Items, LoadFault>(error@),
                            Ok(config) => items_give(
                                parse,
                                headers,
                                names,
                                shapes,
                                at + 1,
                                Items { tensors: done.tensors, config: Some(config), rest },
                                outcome,
                            ),
                        }
                    };
                assert(call_ensures(parse, (text,), answer));
                if let Ok(config) = answer {
                    items_follow_answers(
                        parse,
                        answers,
                        headers,
                        names,
                        shapes,
                        at + 1,
                        Items { tensors: done.tensors, config: Some(config), rest },
                        outcome,
                    );
                }
            }
        } else if let Ok(tensor) = tensor_of(header, name, shapes[at as int], payload) {
            if !done.tensors.contains_key(name) {
                items_follow_answers(
                    parse,
                    answers,
                    headers,
                    names,
                    shapes,
                    at + 1,
                    Items { tensors: done.tensors.insert(name, tensor), config: done.config, rest },
                    outcome,
                );
            }
        }
    }
}

/// Where what `parse` answers depends on the text alone, what an archive gives
/// depends on its bytes and the expected hash alone.
pub proof fn archives_follow_answers<F: Fn(&str) -> Result<ModelConfig, LoadError>>(
    parse: F,
    answers: spec_fn(Seq<char>) -> Result<ModelConfig, LoadFault>,
    bytes: Seq<u8>,
    expected: Option<Seq<u8>>,
    outcome: Result<ArchiveContents, LoadFault>,
)
    requires
        answers_by(parse, answers),
        archive_gives(parse, bytes, expected, outcome),
    ensures
        archive_of(answers, bytes, expected) == outcome,
{
    if let Ok((headers, names, shapes, rest)) = front_matter(bytes) {
        let start = Items { tensors: Map::empty(), config: None, rest };
        let read = choose|read: Result<Items, LoadFault>|
            {
                &&& #[trigger] items_give(parse, headers, names, shapes, 0, start, read)
                &&& match read {
                    Err(fault) => outcome == Err::<ArchiveContents, LoadFault>(fault),
                    Ok(items) => outcome == items_decide(bytes, expected, items),
                }
            };
        items_follow_answers(parse, answers, headers, names, shapes, 0, start, read);
    }
}

/// An archive that loads without an expected hash loads with one exactly where
/// that is the hash of all its bytes, and gives the same; any other hash is
/// reported as a mismatch.
pub proof fn expected_hashes_decide(
    answers: spec_fn(Seq<char>) -> Result<ModelConfig, LoadFault>,
    bytes: Seq<u8>,
    hash: Seq<u8>,
)
    requires
        archive_of(answers, bytes, None) is Ok,
    ensures
        archive_of(answers, bytes, Some(hash)) is Ok <==> hash == sha256_of(bytes),
        hash == sha256_of(bytes) ==> archive_of(answers, bytes, Some(hash)) == archive_of(
            answers,
            bytes,
            None,
        ),
        hash != sha256_of(bytes) ==> archive_of(answers, bytes, Some(hash)) == Err::<
            ArchiveContents,
            LoadFault,
        >(
            LoadFault::HashMismatch {
                expected: hex_text(hash),
                actual: hex_text(sha256_of(bytes)),
            },
        ),
{
}

/// Whatever `parse` answers, an archive loads with an expected hash only where
/// that is the hash of all its bytes, and that hash changes nothing.
pub proof fn only_the_hash_is_accepted<F: Fn(&str) -> Result<ModelConfig, LoadError>>(
    parse: F,
    bytes: Seq<u8>,
    hash: Seq<u8>,
    outcome: Result<ArchiveContents, LoadFault>,
)
    ensures
        archive_gives(parse, bytes, Some(hash), outcome) && outcome is Ok ==> hash == sha256_of(
            bytes,
        ),
        hash == sha256_of(bytes) ==> (archive_gives(parse, bytes, Some(hash), outcome)
            <==> archive_gives(parse, bytes, None, outcome)),
        hash != sha256_of(bytes) && archive_gives(parse, bytes, None, outcome) && outcome is Ok
            ==> archive_gives(
            parse,
            bytes,
            Some(hash),
            Err(
                LoadFault::HashMismatch {
                    expected: hex_text(hash),
                    actual: hex_text(sha256_of(bytes)),
                },
            ),
        ),
{
}

proof fn products_grow(shape: Seq<usize>)
    requires
        positive(shape),
    ensures
        shape.fold_left(1, |total: int, dim: usize| total * dim) >= 1,
        match elements_of(shape) {
            Some(count) => count == shape.fold_left(1, |total: int, dim: usize| total * dim),
            None => shape.fold_left(1, |total: int, dim: usize| total * dim) > usize::MAX,
        },
    decreases shape.len(),
{
    if shape.len() > 0 {
        let shorter = shape.drop_last();
        assert forall|k: int| 0 <= k < shorter.len() implies #[trigger] shorter[k] > 0 by {
            assert(shape[k] > 0);
        }
        products_grow(shorter);
        let total = shorter.fold_left(1, |total: int, dim: usize| total * dim);
        let last = shape[shape.len() - 1] as int;
        assert(last > 0);
        assert(total * last >= total) by (nonlinear_arith)
            requires
                total >= 1,
                last >= 1,
        ;
    }
}

/// A shape has as many elements as its dimensions multiply to, as far as this
/// machine can count them.
pub proof fn elements_are_products(shape: Seq<usize>)
    requires
        forall|k: int| 0 <= k < shape.len() ==> #[trigger] shape[k] > 0,
    ensures
        ({
            let product = shape.fold_left(1, |total: int, dim: usize| total * dim);
            &&& product <= usize::MAX ==> elements_of(shape) == Some(product as nat)
            &&& product > usize::MAX ==> elements_of(shape) is None
        }),
{
    products_grow(shape);
}

/// An item that is read as a tensor has the item's name and shape and the
/// numbers of its payload: little-endian patterns of four bytes, or bytes as
/// two's complement numbers with the pattern of their multiplier behind them.
/// What kind of numbers there are is told by the type code.
pub proof fn tensors_hold_payloads(
    header: Header,
    name: Seq<char>,
    shape: Seq<usize>,
    payload: Seq<u8>,
    tensor: TensorContents,
)
    ensures
        tensor_of(header, name, shape, payload) == Ok::<TensorContents, LoadFault>(tensor) ==> {
            &&& tensor.name == name
            &&& tensor.shape == shape
            &&& elements_of(shape) is Some
            &&& match tensor.data {
                DataContents::Bytes => header.type_code == 0x0101 && header.data_len
                    >= elements_of(shape)->0,
                DataContents::F32(values) => {
                    &&& header.type_code == 0x0404
                    &&& header.data_len >= 4 * elements_of(shape)->0
                    &&& values.len() == elements_of(shape)->0
                    &&& forall|i: int|
                        0 <= i < values.len() ==> #[trigger] values[i] == payload[4 * i] + 0x100
                            * payload[4 * i + 1] + 0x1_0000 * payload[4 * i + 2] + 0x100_0000
                            * payload[4 * i + 3]
                },
                DataContents::QuantizedI8 { values, multiplier } => {
                    let count = elements_of(shape)->0 as int;
                    &&& header.type_code == 0x4101
                    &&& header.data_len >= count + 4
                    &&& values.len() == count
                    &&& forall|i: int|
                        0 <= i < values.len() ==> (#[trigger] values[i] == payload[i] || values[i]
                            == payload[i] - 0x100)
                    &&& multiplier == payload[count] + 0x100 * payload[count + 1] + 0x1_0000
                        * payload[count + 2] + 0x100_0000 * payload[count + 3]
                    &&& 0 < multiplier < 0x7f80_0000
                },
            }
        },
{
}

/// An item with one of the three type codes is read as a tensor wherever its
/// payload is long enough and its multiplier, if it has one, can be used.
pub proof fn complete_payloads_are_read(
    header: Header,
    name: Seq<char>,
    shape: Seq<usize>,
    payload: Seq<u8>,
    count: nat,
)
    requires
        elements_of(shape) == Some(count),
        4 * count <= usize::MAX,
        count + 4 <= usize::MAX,
        payload.len() == header.data_len,
    ensures
        header.type_code == 0x0101 && header.data_len >= count ==> tensor_of(
            header,
            name,
            shape,
            payload,
        ) is Ok,
        header.type_code == 0x0404 && header.data_len >= 4 * count ==> tensor_of(
            header,
            name,
            shape,
            payload,
        ) is Ok,
        header.type_code == 0x4101 && header.data_len >= count + 4 && 0 < le32(
            payload,
            count as int,
        ) < 0x7f80_0000 ==> tensor_of(header, name, shape, payload) is Ok,
        header.type_code != 0x0101 && header.type_code != 0x0404 && header.type_code != 0x4101
            ==> tensor_of(header, name, shape, payload) is Err,
{
}

/// An item as it stands in a file: its name without the NUL, its type code,
/// its shape and its payload.
pub struct WrittenItem {
    /// Name.
    pub name: Seq<u8>,
    /// Type code.
    pub type_code: u64,
    /// Dimensions.
    pub shape: Seq<usize>,
    /// Payload.
    pub payload: Seq<u8>,
}

impl WrittenItem {
    /// The item can be written to a file.
    pub open spec fn writable(self) -> bool {
        &&& self.name.len() < 16 * 1024
        &&& valid_utf8(self.name)
        &&& 1 <= self.shape.len() <= 8
        &&& forall|k: int|
            0 <= k < self.shape.len() ==> 0 < #[trigger] self.shape[k] < 0x8000_0000
        &&& self.payload.len() <= usize::MAX
        &&& self.payload.len() <= 0xffff_ffff_ffff_ffff
    }

    /// What a file says of the item in front of all names.
    pub open spec fn header(self) -> Header {
        Header {
            name_len: (self.name.len() + 1) as usize,
            type_code: self.type_code,
            shape_len: self.shape.len() as usize,
            data_len: self.payload.len() as usize,
        }
    }
}

/// Eight bytes of a number, the lowest first.
pub open spec fn number_bytes(value: nat) -> Seq<u8> {
    seq![
        (value % 256) as u8,
        (value / 0x100 % 256) as u8,
        (value / 0x1_0000 % 256) as u8,
        (value / 0x100_0000 % 256) as u8,
        (value / 0x1_0000_0000 % 256) as u8,
        (value / 0x100_0000_0000 % 256) as u8,
        (value / 0x1_0000_0000_0000 % 256) as u8,
        (value / 0x100_0000_0000_0000 % 256) as u8,
    ]
}

/// Four bytes of a number, the lowest first.
pub open spec fn dimension_bytes(value: int) -> Seq<u8> {
    seq![
        (value % 256) as u8,
        (value / 0x100 % 256) as u8,
        (value / 0x1_0000 % 256) as u8,
        (value / 0x100_0000 % 256) as u8,
    ]
}

/// The headers of items.
pub open spec fn header_bytes(items: Seq<WrittenItem>) -> Seq<u8>
    decreases items.len(),
{
    if items.len() == 0 {
        Seq::empty()
    } else {
        number_bytes(items[0].name.len() + 1) + number_bytes(items[0].type_code as nat)
            + number_bytes(items[0].shape.len()) + number_bytes(
            items[0].payload.len(),
        ) + header_bytes(items.skip(1))
    }
}

/// The names of items, each with a NUL behind it.
pub open spec fn name_bytes(items: Seq<WrittenItem>) -> Seq<u8>
    decreases items.len(),
{
    if items.len() == 0 {
        Seq::empty()
    } else {
        items[0].name + seq![0u8] + name_bytes(items.skip(1))
    }
}

/// The dimensions of a shape.
pub open spec fn shape_bytes(shape: Seq<usize>) -> Seq<u8>
    decreases shape.len(),
{
    if shape.len() == 0 {
        Seq::empty()
    } else {
        dimension_bytes(shape[0] as int) + shape_bytes(shape.skip(1))
    }
}

/// The shapes of items.
pub open spec fn all_shape_bytes(items: Seq<WrittenItem>) -> Seq<u8>
    decreases items.len(),
{
    if items.len() == 0 {
        Seq::empty()
    } else {
        shape_bytes(items[0].shape) + all_shape_bytes(items.skip(1))
    }
}

/// The payloads of items.
pub open spec fn payload_bytes(items: Seq<WrittenItem>) -> Seq<u8>
    decreases items.len(),
{
    if items.len() == 0 {
        Seq::empty()
    } else {
        items[0].payload + payload_bytes(items.skip(1))
    }
}

/// A file: the version, the number of items, their headers, names and shapes,
/// padding, and their payloads.
pub open spec fn file_bytes(items: Seq<WrittenItem>, padding: Seq<u8>) -> Seq<u8> {
    number_bytes(1) + (number_bytes(items.len()) + (header_bytes(items) + (name_bytes(items)
        + (all_shape_bytes(items) + (number_bytes(padding.len()) + (padding
        + payload_bytes(items)))))))
}

proof fn four_digits(value: nat)
    requires
        value <= 0xffff_ffff,
    ensures
        value % 256 + 0x100 * (value / 0x100 % 256) + 0x1_0000 * (value / 0x1_0000 % 256)
            + 0x100_0000 * (value / 0x100_0000 % 256) == value,
        value / 0x100_0000 < 256,
{
}

proof fn low_digits(value: nat)
    ensures
        ({
            let low = value % 0x1_0000_0000;
            &&& low % 256 == value % 256
            &&& low / 0x100 % 256 == value / 0x100 % 256
            &&& low / 0x1_0000 % 256 == value / 0x1_0000 % 256
            &&& low / 0x100_0000 % 256 == value / 0x100_0000 % 256
        }),
{
    let low = value % 0x1_0000_0000;
    let high = value / 0x1_0000_0000;
    assert(value == low + 0x1_0000_0000 * high);
    assert(value / 0x100 == low / 0x100 + 0x100_0000 * high);
    assert(value / 0x1_0000 == low / 0x1_0000 + 0x1_0000 * high);
    assert(value / 0x100_0000 == low / 0x100_0000 + 0x100 * high);
}

proof fn high_digits(value: nat)
    ensures
        ({
            let high = value / 0x1_0000_0000;
            &&& high / 0x100 == value / 0x100_0000_0000
            &&& high / 0x1_0000 == value / 0x1_0000_0000_0000
            &&& high / 0x100_0000 == value / 0x100_0000_0000_0000
        }),
{
    vstd::arithmetic::div_mod::lemma_div_denominator(value as int, 0x1_0000_0000, 0x100);
    vstd::arithmetic::div_mod::lemma_div_denominator(value as int, 0x1_0000_0000, 0x1_0000);
    vstd::arithmetic::div_mod::lemma_div_denominator(value as int, 0x1_0000_0000, 0x100_0000);
}

#[verifier::spinoff_prover]
#[verifier::rlimit(60)]
proof fn written_numbers_are_read(value: nat, rest: Seq<u8>)
    requires
        value <= 0xffff_ffff_ffff_ffff,
    ensures
        next_number(number_bytes(value) + rest) == Ok::<(nat, Seq<u8>), LoadFault>((value, rest)),
{
    let bytes = number_bytes(value);
    let low = value % 0x1_0000_0000;
    let high = value / 0x1_0000_0000;
    assert((bytes + rest).skip(8) =~= rest);
    assert(le64(bytes + rest, 0) == le32(bytes, 0) + 0x1_0000_0000 * le32(bytes, 4)) by {
        assert(forall|i: int| 0 <= i < 8 ==> (bytes + rest)[i] == bytes[i]);
    }
    assert(le32(bytes, 0) == low) by {
        low_digits(value);
        four_digits(low);
    }
    assert(le32(bytes, 4) == high) by {
        high_digits(value);
        four_digits(high);
    }
}

proof fn written_dimensions_are_read(value: int, rest: Seq<u8>)
    requires
        0 <= value < 0x8000_0000,
    ensures
        next_dimension(dimension_bytes(value) + rest) == Ok::<(int, Seq<u8>), LoadFault>(
            (value, rest),
        ),
{
    let bytes = dimension_bytes(value);
    assert((bytes + rest).skip(4) =~= rest);
    assert(forall|i: int| 0 <= i < 4 ==> (bytes + rest)[i] == bytes[i]);
    assert(le32(bytes, 0) == value);
}

/// All items can be written.
pub open spec fn all_writable(items: Seq<WrittenItem>) -> bool {
    forall|k: int| 0 <= k < items.len() ==> (#[trigger] items[k]).writable()
}

/// The headers of items.
pub open spec fn headers_of(items: Seq<WrittenItem>) -> Seq<Header> {
    items.map_values(|item: WrittenItem| item.header())
}

/// The names of items as texts.
pub open spec fn names_of(items: Seq<WrittenItem>) -> Seq<Seq<char>> {
    items.map_values(|item: WrittenItem| decode_utf8(item.name))
}

/// The shapes of items.
pub open spec fn shapes_of(items: Seq<WrittenItem>) -> Seq<Seq<usize>> {
    items.map_values(|item: WrittenItem| item.shape)
}

#[verifier::spinoff_prover]
#[verifier::rlimit(60)]
proof fn written_header_is_read(item: WrittenItem, rest: Seq<u8>)
    requires
        item.writable(),
    ensures
        next_header(
            number_bytes(item.name.len() + 1) + number_bytes(item.type_code as nat) + number_bytes(
                item.shape.len(),
            ) + number_bytes(item.payload.len()) + rest,
        ) == Ok::<(Header, Seq<u8>), LoadFault>((item.header(), rest)),
{
    let name_len = number_bytes(item.name.len() + 1);
    let type_code = number_bytes(item.type_code as nat);
    let shape_len = number_bytes(item.shape.len());
    let data_len = number_bytes(item.payload.len());
    assert(name_len + type_code + shape_len + data_len + rest =~= name_len + (type_code + (
    shape_len + (data_len + rest))));
    written_numbers_are_read(item.name.len() + 1, type_code + (shape_len + (data_len + rest)));
    written_numbers_are_read(item.type_code as nat, shape_len + (data_len + rest));
    written_numbers_are_read(item.shape.len(), data_len + rest);
    written_numbers_are_read(item.payload.len(), rest);
}

#[verifier::spinoff_prover]
#[verifier::rlimit(60)]
proof fn written_headers_are_read(items: Seq<WrittenItem>, rest: Seq<u8>, done: Seq<Header>)
    requires
        all_writable(items),
    ensures
        more_headers(header_bytes(items) + rest, items.len(), done) == Ok::<
            (Seq<Header>, Seq<u8>),
            LoadFault,
        >((done + headers_of(items), rest)),
    decreases items.len(),
{
    if items.len() == 0 {
        assert(header_bytes(items) + rest =~= rest);
        assert(done + headers_of(items) =~= done);
    } else {
        let later = items.skip(1);
        let item = items[0];
        assert(item.writable());
        assert(all_writable(later)) by {
            assert forall|k: int| 0 <= k < later.len() implies (#[trigger] later[k]).writable() by {
                assert(later[k] == items[k + 1]);
            }
        }
        let front = number_bytes(item.name.len() + 1) + number_bytes(item.type_code as nat)
            + number_bytes(item.shape.len()) + number_bytes(item.payload.len());
        assert(header_bytes(items) + rest =~= front + (header_bytes(later) + rest));
        written_header_is_read(item, header_bytes(later) + rest);
        written_headers_are_read(later, rest, done.push(item.header()));
        assert(done.push(item.header()) + headers_of(later) =~= done + headers_of(items));
    }
}

proof fn written_name_is_read(item: WrittenItem, rest: Seq<u8>)
    requires
        item.writable(),
    ensures
        next_name(item.name + seq![0u8] + rest, item.header().name_len) == Ok::<
            (Seq<char>, Seq<u8>),
            LoadFault,
        >((decode_utf8(item.name), rest)),
{
    let bytes = item.name + seq![0u8] + rest;
    let len = item.name.len() + 1;
    assert(bytes.take(len - 1) =~= item.name);
    assert(bytes.skip(len as int) =~= rest);
    assert(bytes[len - 1] == 0);
}

#[verifier::spinoff_prover]
#[verifier::rlimit(60)]
proof fn written_names_are_read(items: Seq<WrittenItem>, rest: Seq<u8>, at: int)
    requires
        all_writable(items),
        0 <= at <= items.len(),
    ensures
        more_names(
            name_bytes(items.skip(at)) + rest,
            headers_of(items),
            names_of(items).take(at),
        ) == Ok::<(Seq<Seq<char>>, Seq<u8>), LoadFault>((names_of(items), rest)),
    decreases items.len() - at,
{
    let later = items.skip(at);
    if at == items.len() {
        assert(name_bytes(later) + rest =~= rest);
        assert(names_of(items).take(at) =~= names_of(items));
    } else {
        let item = items[at];
        assert(item.writable());
        assert(later[0] == item);
        assert(later.skip(1) =~= items.skip(at + 1));
        assert(name_bytes(later) + rest =~= item.name + seq![0u8] + (name_bytes(items.skip(at + 1))
            + rest));
        written_name_is_read(item, name_bytes(items.skip(at + 1)) + rest);
        assert(names_of(items).take(at).push(decode_utf8(item.name)) =~= names_of(items).take(
            at + 1,
        ));
        written_names_are_read(items, rest, at + 1);
    }
}

proof fn written_shape_is_read(shape: Seq<usize>, rest: Seq<u8>, at: int)
    requires
        forall|k: int| 0 <= k < shape.len() ==> 0 < #[trigger] shape[k] < 0x8000_0000,
        0 <= at <= shape.len(),
    ensures
        more_dimensions(shape_bytes(shape.skip(at)) + rest, shape.len(), shape.take(at)) == Ok::<
            (Seq<usize>, Seq<u8>),
            LoadFault,
        >((shape, rest)),
    decreases shape.len() - at,
{
    let later = shape.skip(at);
    if at == shape.len() {
        assert(shape_bytes(later) + rest =~= rest);
        assert(shape.take(at) =~= shape);
    } else {
        let dim = shape[at] as int;
        assert(later[0] == shape[at]);
        assert(later.skip(1) =~= shape.skip(at + 1));
        assert(shape_bytes(later) + rest =~= dimension_bytes(dim) + (shape_bytes(
            shape.skip(at + 1),
        ) + rest));
        written_dimensions_are_read(dim, shape_bytes(shape.skip(at + 1)) + rest);
        assert(shape.take(at).push(shape[at]) =~= shape.take(at + 1));
        written_shape_is_read(shape, rest, at + 1);
    }
}

#[verifier::spinoff_prover]
#[verifier::rlimit(60)]
proof fn written_shapes_are_read(items: Seq<WrittenItem>, rest: Seq<u8>, at: int)
    requires
        all_writable(items),
        0 <= at <= items.len(),
    ensures
        more_shapes(
            all_shape_bytes(items.skip(at)) + rest,
            headers_of(items),
            shapes_of(items).take(at),
        ) == Ok::<(Seq<Seq<usize>>, Seq<u8>), LoadFault>((shapes_of(items), rest)),
    decreases items.len() - at,
{
    let later = items.skip(at);
    if at == items.len() {
        assert(all_shape_bytes(later) + rest =~= rest);
        assert(shapes_of(items).take(at) =~= shapes_of(items));
    } else {
        let item = items[at];
        assert(item.writable());
        assert(later[0] == item);
        assert(later.skip(1) =~= items.skip(at + 1));
        assert(all_shape_bytes(later) + rest =~= shape_bytes(item.shape) + (all_shape_bytes(
            items.skip(at + 1),
        ) + rest));
        written_shape_is_read(item.shape, all_shape_bytes(items.skip(at + 1)) + rest, 0);
        assert(item.shape.skip(0) =~= item.shape);
        assert(item.shape.take(0) =~= Seq::<usize>::empty());
        assert(shapes_of(items).take(at).push(item.shape) =~= shapes_of(items).take(at + 1));
        written_shapes_are_read(items, rest, at + 1);
    }
}

/// What stands in front of the items of a file is read back as it was written,
/// whatever the padding, and the payloads are what is left.
#[verifier::spinoff_prover]
#[verifier::rlimit(60)]
pub proof fn written_front_matter_is_read(items: Seq<WrittenItem>, padding: Seq<u8>)
    requires
        1 <= items.len() <= 100_000,
        all_writable(items),
        padding.len() <= usize::MAX,
        padding.len() <= 0xffff_ffff_ffff_ffff,
    ensures
        front_matter(file_bytes(items, padding)) == Ok::<
            (Seq<Header>, Seq<Seq<char>>, Seq<Seq<usize>>, Seq<u8>),
            LoadFault,
        >((headers_of(items), names_of(items), shapes_of(items), payload_bytes(items))),
{
    let after_padding = padding + payload_bytes(items);
    let after_shapes = number_bytes(padding.len()) + after_padding;
    let after_names = all_shape_bytes(items) + after_shapes;
    let after_headers = name_bytes(items) + after_names;
    let after_count = header_bytes(items) + after_headers;
    let after_version = number_bytes(items.len()) + after_count;
    let bytes = file_bytes(items, padding);
    let headers = headers_of(items);
    let names = names_of(items);
    let shapes = shapes_of(items);
    assert(bytes == number_bytes(1) + after_version);
    assert(next_number(bytes) == Ok::<(nat, Seq<u8>), LoadFault>((1nat, after_version))) by {
        written_numbers_are_read(1, after_version);
    }
    assert(all_headers(after_version) == Ok::<(Seq<Header>, Seq<u8>), LoadFault>(
        (headers, after_headers),
    )) by {
        written_numbers_are_read(items.len(), after_count);
        written_headers_are_read(items, after_headers, Seq::empty());
        assert(Seq::<Header>::empty() + headers =~= headers);
    }
    assert(items.skip(0) =~= items);
    assert(more_names(after_headers, headers, Seq::empty()) == Ok::<
        (Seq<Seq<char>>, Seq<u8>),
        LoadFault,
    >((names, after_names))) by {
        assert(names.take(0) =~= Seq::<Seq<char>>::empty());
        written_names_are_read(items, after_names, 0);
    }
    assert(more_shapes(after_names, headers, Seq::empty()) == Ok::<
        (Seq<Seq<usize>>, Seq<u8>),
        LoadFault,
    >((shapes, after_shapes))) by {
        assert(shapes.take(0) =~= Seq::<Seq<usize>>::empty());
        written_shapes_are_read(items, after_shapes, 0);
    }
    assert(next_size(after_shapes, "header padding"@) == Ok::<(usize, Seq<u8>), LoadFault>(
        (padding.len() as usize, after_padding),
    )) by {
        written_numbers_are_read(padding.len(), after_padding);
    }
    assert(after_padding.skip(padding.len() as int) =~= payload_bytes(items));
}

/// The items before a position have been read: the configuration where it is
/// among them, and the others as tensors under their names.
pub open spec fn are_read(
    items: Seq<WrittenItem>,
    config_at: int,
    config: ModelConfig,
    at: int,
    done: Items,
) -> bool {
    &&& done.config == if config_at < at {
        Some(config)
    } else {
        None
    }
    &&& forall|k: int|
        0 <= k < at && k != config_at ==> {
            let name = decode_utf8((#[trigger] items[k]).name);
            &&& done.tensors.contains_key(name)
            &&& tensor_of(items[k].header(), name, items[k].shape, items[k].payload) == Ok::<
                TensorContents,
                LoadFault,
            >(done.tensors[name])
        }
    &&& forall|name: Seq<char>| #[trigger]
        done.tensors.contains_key(name) ==> exists|k: int|
            0 <= k < at && k != config_at && decode_utf8((#[trigger] items[k]).name) == name
}

/// The items can be read: one of them is the configuration, the others are
/// tensors with names of their own.
pub open spec fn readable(
    answers: spec_fn(Seq<char>) -> Result<ModelConfig, LoadFault>,
    items: Seq<WrittenItem>,
    config_at: int,
    config: ModelConfig,
) -> bool {
    &&& all_writable(items)
    &&& 0 <= config_at < items.len()
    &&& decode_utf8(items[config_at].name) == "special:model.yml"@
    &&& valid_utf8(without_nul(items[config_at].payload))
    &&& answers(decode_utf8(without_nul(items[config_at].payload))) == Ok::<
        ModelConfig,
        LoadFault,
    >(config)
    &&& forall|j: int, k: int|
        0 <= j < k < items.len() ==> decode_utf8((#[trigger] items[j]).name) != decode_utf8(
            (#[trigger] items[k]).name,
        )
    &&& forall|k: int|
        0 <= k < items.len() && k != config_at ==> tensor_of(
            (#[trigger] items[k]).header(),
            decode_utf8(items[k].name),
            items[k].shape,
            items[k].payload,
        ) is Ok
}

#[verifier::spinoff_prover]
#[verifier::rlimit(60)]
proof fn written_items_are_read(
    answers: spec_fn(Seq<char>) -> Result<ModelConfig, LoadFault>,
    items: Seq<WrittenItem>,
    config_at: int,
    config: ModelConfig,
    at: nat,
    done: Items,
)
    requires
        readable(answers, items, config_at, config),
        at <= items.len(),
        done.rest == payload_bytes(items.skip(at as int)),
        are_read(items, config_at, config, at as int, done),
    ensures
        items_of(answers, headers_of(items), names_of(items), shapes_of(items), at, done) matches Ok(
            all,
        ) && all.rest.len() == 0 && are_read(items, config_at, config, items.len() as int, all),
    decreases items.len() - at,
{
    let later = items.skip(at as int);
    if at < items.len() {
        let item = items[at as int];
        let name = decode_utf8(item.name);
        assert(item.writable());
        assert(later[0] == item);
        assert(later.skip(1) =~= items.skip(at as int + 1));
        assert(done.rest.take(item.payload.len() as int) =~= item.payload);
        assert(done.rest.skip(item.payload.len() as int) =~= payload_bytes(items.skip(at as int + 1)));
        let rest = payload_bytes(items.skip(at as int + 1));
        if at == config_at {
            let next = Items { tensors: done.tensors, config: Some(config), rest };
            written_items_are_read(answers, items, config_at, config, at + 1, next);
        } else {
            if at < config_at {
                assert(decode_utf8(items[at as int].name) != decode_utf8(items[config_at].name));
            } else {
                assert(decode_utf8(items[config_at].name) != decode_utf8(items[at as int].name));
            }
            let tensor = tensor_of(item.header(), name, item.shape, item.payload)->Ok_0;
            if done.tensors.contains_key(name) {
                let k = choose|k: int|
                    0 <= k < at && k != config_at && decode_utf8((#[trigger] items[k]).name)
                        == name;
                assert(decode_utf8(items[k].name) != decode_utf8(items[at as int].name));
            }
            let next = Items {
                tensors: done.tensors.insert(name, tensor),
                config: done.config,
                rest,
            };
            assert(are_read(items, config_at, config, at as int + 1, next)) by {
                assert forall|k: int| 0 <= k < at + 1 && k != config_at implies {
                    let name = decode_utf8((#[trigger] items[k]).name);
                    &&& next.tensors.contains_key(name)
                    &&& tensor_of(items[k].header(), name, items[k].shape, items[k].payload)
                        == Ok::<TensorContents, LoadFault>(next.tensors[name])
                } by {
                    if k < at {
                        assert(decode_utf8(items[k].name) != decode_utf8(items[at as int].name));
                    }
                }
                assert forall|other: Seq<char>| #[trigger]
                    next.tensors.contains_key(other) implies exists|k: int|
                    0 <= k < at + 1 && k != config_at && decode_utf8((#[trigger] items[k]).name)
                        == other by {
                    if other == name {
                        assert(decode_utf8(items[at as int].name) == other);
                    } else {
                        assert(done.tensors.contains_key(other));
                        let k = choose|k: int|
                            0 <= k < at && k != config_at && decode_utf8((#[trigger] items[k]).name)
                                == other;
                        assert(decode_utf8(items[k].name) == other);
                    }
                }
            }
            written_items_are_read(answers, items, config_at, config, at + 1, next);
        }
    }
}

/// An archive is read back as it was written: a file with a configuration that
/// can be used and with tensors under names of their own loads, and gives that
/// configuration and, under each name, the tensor of the item with that name.
/// It gives no other tensor.
#[verifier::spinoff_prover]
#[verifier::rlimit(60)]
pub proof fn written_archives_are_read(
    answers: spec_fn(Seq<char>) -> Result<ModelConfig, LoadFault>,
    items: Seq<WrittenItem>,
    padding: Seq<u8>,
    config_at: int,
    config: ModelConfig,
)
    requires
        items.len() <= 100_000,
        readable(answers, items, config_at, config),
        padding.len() <= usize::MAX,
        padding.len() <= 0xffff_ffff_ffff_ffff,
        config.well_formed(),
    ensures
        archive_of(answers, file_bytes(items, padding), None) matches Ok(archive) && {
            &&& archive.config == config
            &&& forall|k: int|
                0 <= k < items.len() && k != config_at ==> {
                    let name = decode_utf8((#[trigger] items[k]).name);
                    &&& archive.tensors.contains_key(name)
                    &&& tensor_of(
                        items[k].header(),
                        name,
                        items[k].shape,
                        items[k].payload,
                    ) == Ok::<TensorContents, LoadFault>(archive.tensors[name])
                }
            &&& forall|name: Seq<char>| #[trigger]
                archive.tensors.contains_key(name) ==> exists|k: int|
                    0 <= k < items.len() && k != config_at && decode_utf8(
                        (#[trigger] items[k]).name,
                    ) == name
        },
{
    written_front_matter_is_read(items, padding);
    let start = Items { tensors: Map::empty(), config: None, rest: payload_bytes(items) };
    assert(items.skip(0) =~= items);
    written_items_are_read(answers, items, config_at, config, 0, start);
}

/// The contents of an archive are its configuration and its tensors, each
/// under its own name with its own shape and numbers.
pub proof fn archives_hold_their_tensors(archive: ModelArchive, k: int)
    requires
        archive.valid(),
        0 <= k < archive.tensors@.len(),
    ensures
        archive@.config == archive.config,
        archive@.tensors.contains_key(archive.tensors@[k].name@),
        ({
            let tensor = archive@.tensors[archive.tensors@[k].name@];
            &&& tensor.name == archive.tensors@[k].name@
            &&& tensor.shape == archive.tensors@[k].shape@
            &&& match archive.tensors@[k].data {
                TensorData::Bytes => tensor.data is Bytes,
                TensorData::F32(values) => tensor.data == DataContents::F32(values@),
                TensorData::QuantizedI8 { values, multiplier } => tensor.data == (
                DataContents::QuantizedI8 { values: values@, multiplier }),
            }
        }),
        forall|name: Seq<char>| #[trigger]
            archive@.tensors.contains_key(name) ==> exists|i: int|
                0 <= i < archive.tensors@.len() && #[trigger] archive.tensors@[i].name@ == name,
{
    found_by_name(archive.tensors@);
}

/// A header stands at a position.
spec fn header_stands(bytes: Seq<u8>, at: int, header: Header) -> bool {
    &&& header.name_len == le64(bytes, at)
    &&& header.type_code == le64(bytes, at + 8)
    &&& header.shape_len == le64(bytes, at + 16)
    &&& header.data_len == le64(bytes, at + 24)
}

proof fn next_header_stands(rest: Seq<u8>)
    ensures
        next_header(rest) matches Ok((header, after)) ==> rest.len() >= 32 && after == rest.skip(32)
            && header_stands(rest, 0, header),
{
    if next_header(rest) is Ok {
        let first = rest.skip(8);
        let second = first.skip(8);
        let third = second.skip(8);
        assert(second =~= rest.skip(16));
        assert(third =~= rest.skip(24));
        assert(third.skip(8) =~= rest.skip(32));
        le64_behind(rest, 8, 0);
        le64_behind(rest, 16, 0);
        le64_behind(rest, 24, 0);
    }
}

proof fn header_stands_behind(bytes: Seq<u8>, start: int, at: int, header: Header)
    requires
        0 <= start,
        0 <= at,
        start + at + 32 <= bytes.len(),
        header_stands(bytes.skip(start), at, header),
    ensures
        header_stands(bytes, start + at, header),
{
    le64_behind(bytes, start, at);
    le64_behind(bytes, start, at + 8);
    le64_behind(bytes, start, at + 16);
    le64_behind(bytes, start, at + 24);
}

#[verifier::spinoff_prover]
#[verifier::rlimit(60)]
proof fn headers_have_places(rest: Seq<u8>, count: nat, done: Seq<Header>, k: int)
    ensures
        more_headers(rest, count, done) matches Ok((headers, left)) ==> {
            &&& headers.len() == done.len() + count
            &&& rest.len() >= 32 * count
            &&& 0 <= k < done.len() ==> headers[k] == done[k]
            &&& done.len() <= k < headers.len() ==> header_stands(
                rest,
                32 * (k - done.len()),
                headers[k],
            )
        },
    decreases count,
{
    if count > 0 {
        next_header_stands(rest);
        if let Ok((header, after)) = next_header(rest) {
            let longer = done.push(header);
            headers_have_places(after, (count - 1) as nat, longer, k);
            if let Ok((headers, left)) = more_headers(rest, count, done) {
                if 0 <= k < done.len() {
                    assert(longer[k] == done[k]);
                } else if k == done.len() {
                    assert(longer[k] == header);
                } else if done.len() < k < headers.len() {
                    header_stands_behind(rest, 32, 32 * (k - longer.len()), headers[k]);
                }
            }
        }
    }
}

proof fn le64_behind(bytes: Seq<u8>, start: int, at: int)
    requires
        0 <= start,
        0 <= at,
        start + at + 8 <= bytes.len(),
    ensures
        le64(bytes.skip(start), at) == le64(bytes, start + at),
{
    let rest = bytes.skip(start);
    assert(forall|k: int| at <= k < at + 8 ==> rest[k] == bytes[start + k]);
}

proof fn names_have_lengths(rest: Seq<u8>, headers: Seq<Header>, done: Seq<Seq<char>>)
    requires
        done.len() <= headers.len(),
    ensures
        more_names(rest, headers, done) matches Ok((names, left)) ==> {
            &&& names.len() == headers.len()
            &&& forall|k: int|
                done.len() <= k < headers.len() ==> 1 <= (#[trigger] headers[k]).name_len
                    <= 16 * 1024
        },
    decreases headers.len() - done.len(),
{
    if done.len() < headers.len() {
        let at = done.len() as int;
        if let Ok((name, after)) = next_name(rest, headers[at].name_len) {
            names_have_lengths(after, headers, done.push(name));
        }
    }
}

proof fn shape_has_rank(rest: Seq<u8>, rank: nat, done: Seq<usize>)
    requires
        done.len() <= rank,
        forall|k: int| 0 <= k < done.len() ==> 0 < #[trigger] done[k] < 0x8000_0000,
    ensures
        more_dimensions(rest, rank, done) matches Ok((shape, left)) ==> shape.len() == rank && forall|
            k: int,
        |
            0 <= k < shape.len() ==> 0 < #[trigger] shape[k] < 0x8000_0000,
    decreases rank - done.len(),
{
    if done.len() < rank {
        if let Ok((dim, after)) = next_dimension(rest) {
            if dim > 0 {
                let longer = done.push(dim as usize);
                assert forall|k: int| 0 <= k < longer.len() implies 0 < #[trigger] longer[k]
                    < 0x8000_0000 by {
                    if k < done.len() {
                        assert(longer[k] == done[k]);
                    }
                }
                shape_has_rank(after, rank, longer);
            }
        }
    }
}

proof fn shapes_have_ranks(rest: Seq<u8>, headers: Seq<Header>, done: Seq<Seq<usize>>)
    requires
        done.len() <= headers.len(),
        forall|k: int|
            0 <= k < done.len() ==> (#[trigger] done[k]).len() == headers[k].shape_len && 1
                <= done[k].len() <= 8 && forall|i: int|
                0 <= i < done[k].len() ==> 0 < #[trigger] done[k][i] < 0x8000_0000,
    ensures
        more_shapes(rest, headers, done) matches Ok((shapes, left)) ==> shapes.len()
            == headers.len() && forall|k: int|
            0 <= k < shapes.len() ==> (#[trigger] shapes[k]).len() == headers[k].shape_len && 1
                <= shapes[k].len() <= 8 && forall|i: int|
                0 <= i < shapes[k].len() ==> 0 < #[trigger] shapes[k][i] < 0x8000_0000,
    decreases headers.len() - done.len(),
{
    if done.len() < headers.len() {
        let at = done.len() as int;
        let rank = headers[at].shape_len;
        if let Ok((shape, after)) = next_shape(rest, rank) {
            shape_has_rank(rest, rank as nat, Seq::empty());
            let longer = done.push(shape);
            assert forall|k: int| 0 <= k < longer.len() implies (#[trigger] longer[k]).len()
                == headers[k].shape_len && 1 <= longer[k].len() <= 8 && forall|i: int|
                0 <= i < longer[k].len() ==> 0 < #[trigger] longer[k][i] < 0x8000_0000 by {
                if k < done.len() {
                    assert(longer[k] == done[k]);
                }
            }
            shapes_have_ranks(after, headers, longer);
        }
    }
}

/// What stands in front of the items of a file is accepted only where it has
/// the format's version, at most a hundred thousand items, and for each of them
/// a name and a shape of a length that the format allows, with positive
/// dimensions. Header `k` stands in the 32 bytes behind the first sixteen and
/// the headers before it.
#[verifier::spinoff_prover]
#[verifier::rlimit(60)]
pub proof fn accepted_front_matter_has_form(
    bytes: Seq<u8>,
    headers: Seq<Header>,
    names: Seq<Seq<char>>,
    shapes: Seq<Seq<usize>>,
    rest: Seq<u8>,
)
    requires
        front_matter(bytes) == Ok::<
            (Seq<Header>, Seq<Seq<char>>, Seq<Seq<usize>>, Seq<u8>),
            LoadFault,
        >((headers, names, shapes, rest)),
    ensures
        bytes.len() >= 16 + 32 * headers.len(),
        le64(bytes, 0) == 1,
        le64(bytes, 8) == headers.len(),
        1 <= headers.len() <= 100_000,
        names.len() == headers.len(),
        shapes.len() == headers.len(),
        forall|k: int|
            0 <= k < headers.len() ==> {
                let header = #[trigger] headers[k];
                &&& header.name_len == le64(bytes, 16 + 32 * k)
                &&& header.type_code == le64(bytes, 16 + 32 * k + 8)
                &&& header.shape_len == le64(bytes, 16 + 32 * k + 16)
                &&& header.data_len == le64(bytes, 16 + 32 * k + 24)
                &&& 1 <= header.name_len <= 16 * 1024
                &&& 1 <= header.shape_len <= 8
            },
        forall|k: int|
            0 <= k < shapes.len() ==> (#[trigger] shapes[k]).len() == headers[k].shape_len
                && forall|i: int|
                0 <= i < shapes[k].len() ==> 0 < #[trigger] shapes[k][i] < 0x8000_0000,
{
    let after_version = bytes.skip(8);
    let after_count = after_version.skip(8);
    assert(after_count =~= bytes.skip(16));
    let count = le64(after_version, 0);
    le64_behind(bytes, 8, 0);
    headers_have_places(after_count, count, Seq::empty(), 0);
    let (read, after_headers) = more_headers(after_count, count, Seq::empty())->Ok_0;
    assert(read == headers);
    names_have_lengths(after_headers, headers, Seq::empty());
    let (found, after_names) = more_names(after_headers, headers, Seq::empty())->Ok_0;
    shapes_have_ranks(after_names, headers, Seq::empty());
    assert forall|k: int| 0 <= k < headers.len() implies {
        let header = #[trigger] headers[k];
        &&& header.name_len == le64(bytes, 16 + 32 * k)
        &&& header.type_code == le64(bytes, 16 + 32 * k + 8)
        &&& header.shape_len == le64(bytes, 16 + 32 * k + 16)
        &&& header.data_len == le64(bytes, 16 + 32 * k + 24)
        &&& 1 <= header.name_len <= 16 * 1024
        &&& 1 <= header.shape_len <= 8
    } by {
        headers_have_places(after_count, count, Seq::empty(), k);
        header_stands_behind(bytes, 16, 32 * k, headers[k]);
        assert(shapes[k].len() == headers[k].shape_len);
    }
}

proof fn read_names_differ(
    answers: spec_fn(Seq<char>) -> Result<ModelConfig, LoadFault>,
    headers: Seq<Header>,
    names: Seq<Seq<char>>,
    shapes: Seq<Seq<usize>>,
    at: nat,
    done: Items,
)
    requires
        at <= headers.len(),
        forall|k: int|
            0 <= k < at && #[trigger] names[k] != "special:model.yml"@ ==> done.tensors.contains_key(
                names[k],
            ),
        forall|j: int, k: int|
            0 <= j < k < at && #[trigger] names[j] == #[trigger] names[k] ==> names[j]
                == "special:model.yml"@,
    ensures
        items_of(answers, headers, names, shapes, at, done) is Ok ==> forall|j: int, k: int|
            0 <= j < k < headers.len() && #[trigger] names[j] == #[trigger] names[k] ==> names[j]
                == "special:model.yml"@,
    decreases headers.len() - at,
{
    if at < headers.len() && items_of(answers, headers, names, shapes, at, done) is Ok {
        let header = headers[at as int];
        let name = names[at as int];
        let payload = done.rest.take(header.data_len as int);
        let rest = done.rest.skip(header.data_len as int);
        if name == config_name() {
            let config = answers(decode_utf8(without_nul(payload)))->Ok_0;
            read_names_differ(
                answers,
                headers,
                names,
                shapes,
                at + 1,
                Items { tensors: done.tensors, config: Some(config), rest },
            );
        } else {
            let tensor = tensor_of(header, name, shapes[at as int], payload)->Ok_0;
            read_names_differ(
                answers,
                headers,
                names,
                shapes,
                at + 1,
                Items { tensors: done.tensors.insert(name, tensor), config: done.config, rest },
            );
        }
    }
}

/// An archive loads only where no two of its tensors have the same name.
pub proof fn loaded_tensors_have_names_of_their_own(
    answers: spec_fn(Seq<char>) -> Result<ModelConfig, LoadFault>,
    bytes: Seq<u8>,
    expected: Option<Seq<u8>>,
    headers: Seq<Header>,
    names: Seq<Seq<char>>,
    shapes: Seq<Seq<usize>>,
    rest: Seq<u8>,
    j: int,
    k: int,
)
    requires
        archive_of(answers, bytes, expected) is Ok,
        front_matter(bytes) == Ok::<
            (Seq<Header>, Seq<Seq<char>>, Seq<Seq<usize>>, Seq<u8>),
            LoadFault,
        >((headers, names, shapes, rest)),
        0 <= j < k < headers.len(),
        names[j] != "special:model.yml"@,
    ensures
        names[j] != names[k],
{
    read_names_differ(
        answers,
        headers,
        names,
        shapes,
        0,
        Items { tensors: Map::empty(), config: None, rest },
    );
}

/// Names and shapes are listed one for one, in order, and the expected hash is
/// the one that was given.
pub proof fn names_and_shapes_are_listed_in_order(
    strings: Seq<String>,
    vectors: Seq<Vec<usize>>,
    hash: [u8; 32],
)
    ensures
        texts(strings).len() == strings.len(),
        forall|k: int| 0 <= k < strings.len() ==> #[trigger] texts(strings)[k] == strings[k]@,
        lists(vectors).len() == vectors.len(),
        forall|k: int| 0 <= k < vectors.len() ==> #[trigger] lists(vectors)[k] == vectors[k]@,
        expected_hash(None) is None,
        expected_hash(Some(hash)) == Some(hash@),
{
}

/// Damage is told only where the bytes in front of it end too early; what else
/// is wrong with them is told as it is.
pub proof fn damage_is_told_at_the_end(text: Seq<char>)
    ensures
        met_damage(LoadFault::InvalidModel("unexpected end of Marian model"@))
            == LoadFault::InvalidModel("invalid gzip stream"@),
        text != "unexpected end of Marian model"@ ==> met_damage(LoadFault::InvalidModel(text))
            == LoadFault::InvalidModel(text),
        met_damage(LoadFault::UnsupportedArchitecture(text)) == LoadFault::UnsupportedArchitecture(
            text,
        ),
{
}

/// One final NUL of a text is dropped, and nothing else.
pub proof fn final_nuls_are_dropped(bytes: Seq<u8>)
    ensures
        without_nul(bytes.push(0)) == bytes,
        bytes.len() == 0 || bytes[bytes.len() - 1] != 0 ==> without_nul(bytes) == bytes,
{
    assert(bytes.push(0).drop_last() =~= bytes);
}

/// The type of a tensor follows from its numbers.
pub proof fn types_follow_numbers(values: Seq<u32>, weights: Seq<i8>, multiplier: u32)
    ensures
        DataContents::Bytes.tensor_type() == TensorType::Int8,
        DataContents::F32(values).tensor_type() == TensorType::Float32,
        (DataContents::QuantizedI8 { values: weights, multiplier }).tensor_type()
            == TensorType::IntGemm8,
{
}

} // verus!
