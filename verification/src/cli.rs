//! The command line: what the arguments ask for.

use crate::asset::{gunzipped, Asset};
use crate::bytes::same_bytes;
use vstd::prelude::*;
use vstd::string::*;
use vstd::utf8::*;

verus! {

/// How the program is used.
pub fn usage() -> (text: &'static str)
    ensures
        text@
            == "usage:\n  linguaspark translate MODEL SRC_VOCAB TRG_VOCAB SHORTLIST [--beam-size N] [TEXT]\n  linguaspark bench MODEL SRC_VOCAB TRG_VOCAB SHORTLIST [--beam-size N] [TEXT]"@,
{
    "usage:\n  linguaspark translate MODEL SRC_VOCAB TRG_VOCAB SHORTLIST [--beam-size N] [TEXT]\n  linguaspark bench MODEL SRC_VOCAB TRG_VOCAB SHORTLIST [--beam-size N] [TEXT]"
}

/// How a translation is asked for.
pub fn translate_usage() -> (text: &'static str)
    ensures
        text@
            == "usage: linguaspark translate MODEL SRC_VOCAB TRG_VOCAB SHORTLIST [--beam-size N] [TEXT]"@,
{
    "usage: linguaspark translate MODEL SRC_VOCAB TRG_VOCAB SHORTLIST [--beam-size N] [TEXT]"
}

/// What the program is asked to do.
#[derive(Debug, Clone, Copy, PartialEq, Eq, Structural)]
pub enum Command {
    /// Translate and print.
    Translate,
    /// Translate repeatedly and print timings.
    Bench,
}

/// The command with a name.
pub open spec fn command_named(name: Seq<char>) -> Option<Command> {
    if name == "translate"@ {
        Some(Command::Translate)
    } else if name == "bench"@ {
        Some(Command::Bench)
    } else {
        None
    }
}

/// Finds the command with a name.
pub fn find_command(name: &str) -> (command: Option<Command>)
    ensures
        command == command_named(name@),
{
    let name: String = String::from_str(name);
    let translate: String = String::from_str("translate");
    let bench: String = String::from_str("bench");
    if name == translate {
        Some(Command::Translate)
    } else if name == bench {
        Some(Command::Bench)
    } else {
        None
    }
}

/// Why a text is no size.
#[derive(Debug, Clone, Copy, PartialEq, Eq, Structural)]
pub enum SizeError {
    /// There is no text.
    Empty,
    /// Some character is no digit.
    InvalidDigit,
    /// The number is too large.
    TooLarge,
}

impl SizeError {
    /// The sentence shown to a user.
    pub fn sentence(&self) -> (text: &'static str)
        ensures
            text@ == match self {
                SizeError::Empty => "cannot parse integer from empty string"@,
                SizeError::InvalidDigit => "invalid digit found in string"@,
                SizeError::TooLarge => "number too large to fit in target type"@,
            },
    {
        match self {
            SizeError::Empty => "cannot parse integer from empty string",
            SizeError::InvalidDigit => "invalid digit found in string",
            SizeError::TooLarge => "number too large to fit in target type",
        }
    }
}

/// The byte is a decimal digit.
pub open spec fn is_digit(byte: u8) -> bool {
    0x30 <= byte <= 0x39
}

/// The decimal number that bytes write; digits are read until the number is
/// too large or a byte is no digit.
pub open spec fn number_of(bytes: Seq<u8>, limit: nat) -> Result<nat, SizeError>
    decreases bytes.len(),
{
    if bytes.len() == 0 {
        Ok(0)
    } else {
        match number_of(bytes.drop_last(), limit) {
            Err(error) => Err(error),
            Ok(number) => {
                let longer = 10 * number + (bytes.last() - 0x30);
                if !is_digit(bytes.last()) {
                    Err(SizeError::InvalidDigit)
                } else if longer > limit {
                    Err(SizeError::TooLarge)
                } else {
                    Ok(longer as nat)
                }
            },
        }
    }
}

/// The number that a text writes: digits, with a plus sign in front or not.
pub open spec fn size_of(bytes: Seq<u8>, limit: nat) -> Result<nat, SizeError> {
    if bytes.len() == 0 {
        Err(SizeError::Empty)
    } else if bytes[0] == 0x2b {
        if bytes.len() == 1 {
            Err(SizeError::InvalidDigit)
        } else {
            number_of(bytes.skip(1), limit)
        }
    } else {
        number_of(bytes, limit)
    }
}

proof fn errors_stay(bytes: Seq<u8>, limit: nat, at: int)
    requires
        0 <= at <= bytes.len(),
        number_of(bytes.take(at), limit) is Err,
    ensures
        number_of(bytes, limit) == number_of(bytes.take(at), limit),
    decreases bytes.len() - at,
{
    if at < bytes.len() {
        assert(bytes.take(at + 1).drop_last() == bytes.take(at));
        errors_stay(bytes, limit, at + 1);
    } else {
        assert(bytes.take(at) == bytes);
    }
}

/// Reads digits.
fn read_number(bytes: &[u8], limit: u64) -> (number: Result<u64, SizeError>)
    ensures
        match number {
            Ok(number) => number_of(bytes@, limit as nat) == Ok::<nat, SizeError>(number as nat),
            Err(error) => number_of(bytes@, limit as nat) == Err::<nat, SizeError>(error),
        },
{
    let mut number: u64 = 0;
    let mut at: usize = 0;
    proof {
        assert(bytes@.take(0) == Seq::<u8>::empty());
    }
    while at < bytes.len()
        invariant
            at <= bytes@.len(),
            number <= limit,
            number_of(bytes@.take(at as int), limit as nat) == Ok::<nat, SizeError>(number as nat),
        decreases bytes@.len() - at,
    {
        let byte: u8 = bytes[at];
        proof {
            assert(bytes@.take(at + 1).drop_last() == bytes@.take(at as int));
            assert(bytes@.take(at + 1).last() == byte);
        }
        if byte < 0x30 || byte > 0x39 {
            proof {
                errors_stay(bytes@, limit as nat, at + 1);
            }
            return Err(SizeError::InvalidDigit);
        }
        let longer: u128 = 10 * (number as u128) + (byte as u128 - 0x30);
        if longer > limit as u128 {
            proof {
                errors_stay(bytes@, limit as nat, at + 1);
            }
            return Err(SizeError::TooLarge);
        }
        number = longer as u64;
        at = at + 1;
    }
    proof {
        assert(bytes@.take(at as int) == bytes@);
    }
    Ok(number)
}

/// Reads a number.
fn read_size(bytes: &[u8], limit: u64) -> (number: Result<u64, SizeError>)
    ensures
        match number {
            Ok(number) => size_of(bytes@, limit as nat) == Ok::<nat, SizeError>(number as nat),
            Err(error) => size_of(bytes@, limit as nat) == Err::<nat, SizeError>(error),
        },
{
    if bytes.len() == 0 {
        return Err(SizeError::Empty);
    }
    if bytes[0] == 0x2b {
        if bytes.len() == 1 {
            return Err(SizeError::InvalidDigit);
        }
        let rest: &[u8] = vstd::slice::slice_subrange(bytes, 1, bytes.len());
        proof {
            assert(rest@ == bytes@.skip(1));
        }
        return read_number(rest, limit);
    }
    read_number(bytes, limit)
}

/// The size that a text writes.
pub open spec fn size_in(text: Seq<char>) -> Result<nat, SizeError> {
    size_of(encode_utf8(text), usize::MAX as nat)
}

/// Reads a size.
pub fn parse_size(text: &str) -> (size: Result<usize, SizeError>)
    ensures
        match size {
            Ok(size) => size_in(text@) == Ok::<nat, SizeError>(size as nat),
            Err(error) => size_in(text@) == Err::<nat, SizeError>(error),
        },
{
    match read_size(text.as_bytes(), usize::MAX as u64) {
        Ok(size) => {
            proof {
                numbers_stay_below(encode_utf8(text@), usize::MAX as nat);
                if encode_utf8(text@).len() > 0 {
                    numbers_stay_below(encode_utf8(text@).skip(1), usize::MAX as nat);
                }
            }
            Ok(size as usize)
        },
        Err(error) => Err(error),
    }
}

proof fn numbers_stay_below(bytes: Seq<u8>, limit: nat)
    ensures
        number_of(bytes, limit) matches Ok(number) ==> number <= limit,
    decreases bytes.len(),
{
    if bytes.len() > 0 {
        numbers_stay_below(bytes.drop_last(), limit);
    }
}

/// Why arguments are refused.
#[derive(Debug, Clone, Copy, PartialEq, Eq, Structural)]
pub enum ArgumentError {
    /// The beam size is announced, but not given.
    MissingBeamSize,
    /// The beam size is no size.
    InvalidBeamSize(SizeError),
}

impl ArgumentError {
    /// The sentence shown to a user.
    pub fn sentence(&self) -> (text: &'static str)
        ensures
            text@ == match self {
                ArgumentError::MissingBeamSize => "--beam-size requires a value"@,
                ArgumentError::InvalidBeamSize(SizeError::Empty) =>
                "cannot parse integer from empty string"@,
                ArgumentError::InvalidBeamSize(SizeError::InvalidDigit) =>
                "invalid digit found in string"@,
                ArgumentError::InvalidBeamSize(SizeError::TooLarge) =>
                "number too large to fit in target type"@,
            },
    {
        match self {
            ArgumentError::MissingBeamSize => "--beam-size requires a value",
            ArgumentError::InvalidBeamSize(error) => error.sentence(),
        }
    }
}

/// Number of files that a translation needs: model, source vocabulary, target
/// vocabulary and shortlist.
pub const FILE_COUNT: usize = 4;

/// Tells whether there are enough arguments to name all files.
pub fn names_all_files(count: usize) -> (answer: bool)
    ensures
        answer == (count >= FILE_COUNT),
        answer == (count >= 4),
{
    count >= FILE_COUNT
}

/// Tells whether source and target share a vocabulary: they do where both are
/// read from the same path.
pub fn shares_vocabulary(source: &[u8], target: &[u8]) -> (answer: bool)
    ensures
        answer == (source@ == target@),
{
    same_bytes(source, target)
}

/// What the arguments behind the file names ask for.
#[derive(Debug)]
pub struct Request {
    /// Number of hypotheses retained during beam search, where it is given.
    pub beam_size: Option<usize>,
    /// Parts of the text to translate.
    pub text_parts: Vec<String>,
}

/// What arguments ask for, with texts as character sequences.
#[verifier::ext_equal]
pub struct RequestContents {
    /// Number of hypotheses retained during beam search, where it is given.
    pub beam_size: Option<usize>,
    /// Parts of the text to translate.
    pub text_parts: Seq<Seq<char>>,
}

/// The character sequences of texts.
pub open spec fn texts_of(texts: Seq<String>) -> Seq<Seq<char>> {
    texts.map_values(|text: String| text@)
}

impl View for Request {
    type V = RequestContents;

    open spec fn view(&self) -> RequestContents {
        RequestContents { beam_size: self.beam_size, text_parts: texts_of(self.text_parts@) }
    }
}

/// What the arguments from a position on ask for, behind what was asked for
/// before.
pub open spec fn request_from(arguments: Seq<Seq<char>>, at: nat, done: RequestContents) -> Result<
    RequestContents,
    ArgumentError,
>
    decreases arguments.len() - at,
{
    if at >= arguments.len() {
        Ok(done)
    } else if arguments[at as int] != "--beam-size"@ {
        request_from(
            arguments,
            at + 1,
            RequestContents { text_parts: done.text_parts.push(arguments[at as int]), ..done },
        )
    } else if at + 1 >= arguments.len() {
        Err(ArgumentError::MissingBeamSize)
    } else {
        match size_in(arguments[(at + 1) as int]) {
            Err(error) => Err(ArgumentError::InvalidBeamSize(error)),
            Ok(size) => request_from(
                arguments,
                at + 2,
                RequestContents { beam_size: Some(size as usize), ..done },
            ),
        }
    }
}

/// What arguments ask for: the last beam size wins, and everything else is
/// text.
pub open spec fn request_of(arguments: Seq<Seq<char>>) -> Result<RequestContents, ArgumentError> {
    request_from(arguments, 0, RequestContents { beam_size: None, text_parts: Seq::empty() })
}

/// Reads the arguments behind the file names.
pub fn parse_arguments(arguments: &[String]) -> (request: Result<Request, ArgumentError>)
    ensures
        match request {
            Ok(request) => request_of(texts_of(arguments@)) == Ok::<RequestContents, ArgumentError>(
                request@,
            ),
            Err(error) => request_of(texts_of(arguments@)) == Err::<RequestContents, ArgumentError>(
                error,
            ),
        },
{
    let ghost all = texts_of(arguments@);
    let mut beam_size: Option<usize> = None;
    let mut text_parts: Vec<String> = Vec::new();
    let flag: String = String::from_str("--beam-size");
    let mut at: usize = 0;
    proof {
        assert(texts_of(text_parts@) == Seq::<Seq<char>>::empty());
        assert(arguments.len() == arguments@.len());
    }
    while at < arguments.len()
        invariant
            at <= arguments@.len(),
            arguments@.len() <= usize::MAX,
            all == texts_of(arguments@),
            flag@ == "--beam-size"@,
            request_of(all) == request_from(
                all,
                at as nat,
                RequestContents { beam_size, text_parts: texts_of(text_parts@) },
            ),
        decreases arguments@.len() - at,
    {
        let argument: &String = &arguments[at];
        proof {
            assert(all[at as int] == argument@);
        }
        if *argument == flag {
            if arguments.len() - at == 1 {
                return Err(ArgumentError::MissingBeamSize);
            }
            proof {
                assert(all[at + 1] == arguments@[at + 1]@);
            }
            match parse_size(arguments[at + 1].as_str()) {
                Ok(size) => {
                    beam_size = Some(size);
                },
                Err(error) => {
                    return Err(ArgumentError::InvalidBeamSize(error));
                },
            }
            at = at + 2;
        } else {
            let ghost before = texts_of(text_parts@);
            let part: String = argument.clone();
            text_parts.push(part);
            proof {
                assert(texts_of(text_parts@) == before.push(argument@));
            }
            at = at + 1;
        }
    }
    Ok(Request { beam_size, text_parts })
}

/// Texts with a space between them.
pub open spec fn joined(parts: Seq<Seq<char>>) -> Seq<char>
    decreases parts.len(),
{
    if parts.len() == 0 {
        Seq::empty()
    } else if parts.len() == 1 {
        parts[0]
    } else {
        joined(parts.drop_last()) + " "@ + parts.last()
    }
}

/// Joins the parts of a text with spaces.
pub fn join_text(parts: &[String]) -> (text: String)
    ensures
        text@ == joined(texts_of(parts@)),
{
    let ghost all = texts_of(parts@);
    if parts.len() == 0 {
        let empty: String = String::new();
        proof {
            assert(empty@ == Seq::<char>::empty());
        }
        return empty;
    }
    let mut text: String = parts[0].clone();
    let mut at: usize = 1;
    proof {
        assert(all.take(1)[0] == parts@[0]@);
    }
    while at < parts.len()
        invariant
            1 <= at <= parts@.len(),
            all == texts_of(parts@),
            text@ == joined(all.take(at as int)),
        decreases parts@.len() - at,
    {
        proof {
            assert(all.take(at + 1).drop_last() == all.take(at as int));
            assert(all.take(at + 1).last() == parts@[at as int]@);
        }
        text = text.concat(" ").concat(parts[at].as_str());
        at = at + 1;
    }
    proof {
        assert(all.take(at as int) == all);
    }
    text
}

/// The bytes end with the ending.
pub open spec fn ends_with(bytes: Seq<u8>, ending: Seq<u8>) -> bool {
    bytes.len() >= ending.len() && bytes.skip(bytes.len() - ending.len()) == ending
}

/// The file is compressed: its name ends in `.gz`.
pub open spec fn names_gzip(path: Seq<char>) -> bool {
    ends_with(encode_utf8(path), seq![0x2eu8, 0x67, 0x7a])
}

/// The asset in a file with the given name and bytes.
pub fn asset_from_file(path: &str, bytes: Vec<u8>) -> (asset: Asset)
    ensures
        asset.content() == if names_gzip(path@) {
            gunzipped(bytes@)
        } else {
            Some(bytes@)
        },
{
    let name: &[u8] = path.as_bytes();
    let len: usize = name.len();
    let gzip: bool = len >= 3 && name[len - 3] == 0x2e && name[len - 2] == 0x67 && name[len - 1]
        == 0x7a;
    proof {
        let ending = seq![0x2eu8, 0x67, 0x7a];
        if len >= 3 {
            let tail = name@.skip(len - 3);
            assert(tail[0] == name@[len - 3] && tail[1] == name@[len - 2] && tail[2] == name@[len
                - 1]);
            if gzip {
                assert(tail =~= ending);
            } else if tail == ending {
                assert(tail[0] == ending[0] && tail[1] == ending[1] && tail[2] == ending[2]);
            }
        }
        assert(gzip == names_gzip(path@));
    }
    if gzip {
        Asset::gzip(bytes)
    } else {
        Asset::raw(bytes)
    }
}

/// Number of bytes of the white space that a UTF-8 text starts with, one
/// character of it; zero where the text starts with something else.
pub open spec fn space_width(text: Seq<u8>) -> nat {
    if text.len() >= 1 && (text[0] == 0x20 || 0x09 <= text[0] <= 0x0d) {
        1
    } else if text.len() >= 2 && text[0] == 0xc2 && (text[1] == 0x85 || text[1] == 0xa0) {
        2
    } else if text.len() >= 3 && is_wide_space(text[0], text[1], text[2]) {
        3
    } else {
        0
    }
}

/// The bytes encode a white space character of three bytes: U+1680, U+2000 to
/// U+200A, U+2028, U+2029, U+202F, U+205F or U+3000.
pub open spec fn is_wide_space(first: u8, second: u8, third: u8) -> bool {
    ||| first == 0xe1 && second == 0x9a && third == 0x80
    ||| first == 0xe2 && second == 0x80 && (0x80 <= third <= 0x8a || third == 0xa8 || third == 0xa9
        || third == 0xaf)
    ||| first == 0xe2 && second == 0x81 && third == 0x9f
    ||| first == 0xe3 && second == 0x80 && third == 0x80
}

/// Number of bytes in front of the first line feed.
pub open spec fn line_length(bytes: Seq<u8>) -> nat
    decreases bytes.len(),
{
    if bytes.len() == 0 || bytes[0] == 0x0a {
        0
    } else {
        line_length(bytes.skip(1)) + 1
    }
}

/// Number of bytes of white space at the start.
pub open spec fn leading_spaces(bytes: Seq<u8>) -> nat
    decreases bytes.len(),
{
    if space_width(bytes) == 0 {
        0
    } else {
        leading_spaces(bytes.skip(space_width(bytes) as int)) + space_width(bytes)
    }
}

/// Number of bytes in front of the first white space.
pub open spec fn word_length(bytes: Seq<u8>) -> nat
    decreases bytes.len(),
{
    if bytes.len() == 0 || space_width(bytes) > 0 {
        0
    } else {
        word_length(bytes.skip(1)) + 1
    }
}

/// The first word.
pub open spec fn first_word(bytes: Seq<u8>) -> Seq<u8> {
    let rest = bytes.skip(leading_spaces(bytes) as int);
    rest.take(word_length(rest) as int)
}

/// The number that the first word behind a name writes, where a line starts
/// with the name.
pub open spec fn value_in_line(line: Seq<u8>, name: Seq<u8>) -> Option<nat> {
    if !(line.len() >= name.len() && line.take(name.len() as int) == name) {
        None
    } else {
        match size_of(first_word(line.skip(name.len() as int)), u64::MAX as nat) {
            Ok(value) => Some(value),
            Err(_) => None,
        }
    }
}

/// The number behind a name in the first line that has one.
pub open spec fn value_in(status: Seq<u8>, name: Seq<u8>) -> Option<nat>
    decreases status.len(),
{
    if status.len() == 0 {
        None
    } else {
        let length = line_length(status) as int;
        match value_in_line(status.take(length), name) {
            Some(value) => Some(value),
            None => if length < status.len() {
                value_in(status.skip(length + 1), name)
            } else {
                None
            },
        }
    }
}

/// Finds the end of the line that starts at a position.
fn line_end(bytes: &[u8], start: usize) -> (end: usize)
    requires
        start <= bytes@.len(),
    ensures
        start <= end <= bytes@.len(),
        end - start == line_length(bytes@.skip(start as int)),
{
    let mut end: usize = start;
    while end < bytes.len() && bytes[end] != 0x0a
        invariant
            start <= end <= bytes@.len(),
            line_length(bytes@.skip(start as int)) == end - start + line_length(
                bytes@.skip(end as int),
            ),
        decreases bytes@.len() - end,
    {
        proof {
            assert(bytes@.skip(end as int).skip(1) == bytes@.skip(end + 1));
        }
        end = end + 1;
    }
    end
}

/// Measures the white space at a position.
fn measure_space(bytes: &[u8], at: usize) -> (width: usize)
    requires
        at <= bytes@.len(),
    ensures
        width == space_width(bytes@.skip(at as int)),
        at + width <= bytes@.len(),
{
    assert(bytes.len() == bytes@.len());
    let left: usize = bytes.len() - at;
    if left == 0 {
        return 0;
    }
    let first: u8 = bytes[at];
    if first == 0x20 || (0x09 <= first && first <= 0x0d) {
        return 1;
    }
    if left == 1 {
        return 0;
    }
    let second: u8 = bytes[at + 1];
    if first == 0xc2 && (second == 0x85 || second == 0xa0) {
        return 2;
    }
    if left == 2 {
        return 0;
    }
    let third: u8 = bytes[at + 2];
    let general: bool = first == 0xe2 && second == 0x80 && ((0x80 <= third && third <= 0x8a) || third
        == 0xa8 || third == 0xa9 || third == 0xaf);
    if general || (first == 0xe1 && second == 0x9a && third == 0x80) || (first == 0xe2 && second
        == 0x81 && third == 0x9f) || (first == 0xe3 && second == 0x80 && third == 0x80) {
        3
    } else {
        0
    }
}

/// Finds the first word behind a position.
fn find_word(bytes: &[u8], start: usize) -> (word: &[u8])
    requires
        start <= bytes@.len(),
    ensures
        word@ == first_word(bytes@.skip(start as int)),
{
    let mut begin: usize = start;
    let mut width: usize = measure_space(bytes, begin);
    while width > 0
        invariant
            start <= begin,
            begin + width <= bytes@.len(),
            width == space_width(bytes@.skip(begin as int)),
            leading_spaces(bytes@.skip(start as int)) == begin - start + leading_spaces(
                bytes@.skip(begin as int),
            ),
        decreases bytes@.len() - begin,
    {
        proof {
            assert(bytes.len() == bytes@.len());
            assert(bytes@.skip(begin as int).skip(width as int) == bytes@.skip(begin + width));
        }
        begin = begin + width;
        width = measure_space(bytes, begin);
    }
    let mut end: usize = begin;
    while end < bytes.len() && measure_space(bytes, end) == 0
        invariant
            begin <= end <= bytes@.len(),
            word_length(bytes@.skip(begin as int)) == end - begin + word_length(
                bytes@.skip(end as int),
            ),
        decreases bytes@.len() - end,
    {
        proof {
            assert(bytes@.skip(end as int).skip(1) == bytes@.skip(end + 1));
        }
        end = end + 1;
    }
    proof {
        assert(bytes@.skip(start as int).skip(begin - start) == bytes@.skip(begin as int));
        assert(bytes@.subrange(begin as int, end as int) == bytes@.skip(begin as int).take(
            end - begin,
        ));
    }
    vstd::slice::slice_subrange(bytes, begin, end)
}

/// Tells whether the bytes start with a name.
fn starts_with(bytes: &[u8], name: &[u8]) -> (answer: bool)
    ensures
        answer == (bytes@.len() >= name@.len() && bytes@.take(name@.len() as int) == name@),
{
    if bytes.len() < name.len() {
        return false;
    }
    let mut at: usize = 0;
    while at < name.len()
        invariant
            at <= name@.len() <= bytes@.len(),
            bytes@.take(at as int) == name@.take(at as int),
        decreases name@.len() - at,
    {
        if bytes[at] != name[at] {
            proof {
                if bytes@.take(name@.len() as int) == name@ {
                    assert(bytes@.take(name@.len() as int)[at as int] == name@[at as int]);
                }
            }
            return false;
        }
        at = at + 1;
    }
    proof {
        assert(name@.take(at as int) == name@);
    }
    true
}

/// Reads the number behind a name in the first line of a status text that has
/// one.
pub fn status_value(status: &[u8], name: &[u8]) -> (value: Option<u64>)
    ensures
        match value {
            Some(value) => value_in(status@, name@) == Some(value as nat),
            None => value_in(status@, name@) is None,
        },
{
    let mut start: usize = 0;
    proof {
        assert(status@.skip(0) == status@);
    }
    while start < status.len()
        invariant
            start <= status@.len(),
            value_in(status@, name@) == value_in(status@.skip(start as int), name@),
        decreases status@.len() - start,
    {
        let end: usize = line_end(status, start);
        let line: &[u8] = vstd::slice::slice_subrange(status, start, end);
        proof {
            let rest = status@.skip(start as int);
            assert(line@ == rest.take(end - start));
            if end < status@.len() {
                assert(rest.skip(end - start + 1) == status@.skip(end + 1));
            } else {
                assert(rest.take(rest.len() as int) == rest);
            }
        }
        if starts_with(line, name) {
            let word: &[u8] = find_word(line, name.len());
            match read_size(word, u64::MAX) {
                Ok(value) => {
                    return Some(value);
                },
                Err(_) => {},
            }
        }
        if end == status.len() {
            return None;
        }
        start = end + 1;
    }
    None
}

/// The lines of a text, as UTF-8. A carriage return in front of a line feed
/// belongs to neither line, and behind the last line feed stands no empty line.
pub open spec fn lines_of(text: Seq<u8>) -> Seq<Seq<u8>>
    decreases text.len(),
{
    if text.len() == 0 {
        Seq::empty()
    } else {
        let length = line_length(text) as int;
        if length >= text.len() {
            seq![text]
        } else {
            let line = if length > 0 && text[length - 1] == 0x0d {
                text.take(length - 1)
            } else {
                text.take(length)
            };
            seq![line] + lines_of(text.skip(length + 1))
        }
    }
}

/// Texts as UTF-8.
pub open spec fn encoded(texts: Seq<String>) -> Seq<Seq<u8>> {
    texts.map_values(|text: String| encode_utf8(text@))
}

/// A text can be cut in front of a character of one byte.
proof fn cuts_before_ascii(text: Seq<char>, at: int)
    requires
        0 <= at < encode_utf8(text).len(),
        encode_utf8(text)[at] < 0x80,
    ensures
        is_char_boundary(encode_utf8(text), at),
{
    encode_utf8_valid_utf8(text);
    utf8_byte_ranges_bitwise(encode_utf8(text)[at]);
    is_char_boundary_iff_not_is_continuation_byte(encode_utf8(text), at);
}

/// A text can be cut behind a character of one byte at its start.
proof fn cuts_behind_ascii(text: Seq<char>)
    requires
        encode_utf8(text).len() > 0,
        encode_utf8(text)[0] < 0x80,
    ensures
        is_char_boundary(encode_utf8(text), 1),
{
    encode_utf8_valid_utf8(text);
    utf8_byte_ranges_bitwise(encode_utf8(text)[0]);
    reveal_with_fuel(is_char_boundary, 2);
}

/// A line that is not the last one ends with a line feed.
proof fn lines_end_with_line_feeds(bytes: Seq<u8>)
    ensures
        line_length(bytes) <= bytes.len(),
        line_length(bytes) < bytes.len() ==> bytes[line_length(bytes) as int] == 0x0a,
    decreases bytes.len(),
{
    if bytes.len() > 0 && bytes[0] != 0x0a {
        lines_end_with_line_feeds(bytes.skip(1));
    }
}

/// Splits a text into lines.
pub fn split_lines(text: &str) -> (lines: Vec<String>)
    ensures
        encoded(lines@) == lines_of(encode_utf8(text@)),
{
    let mut lines: Vec<String> = Vec::new();
    let mut rest: &str = text;
    let ghost all = lines_of(encode_utf8(text@));
    proof {
        assert(encoded(lines@) + all == all);
    }
    while rest.as_bytes().len() > 0
        invariant
            all == lines_of(encode_utf8(text@)),
            encoded(lines@) + lines_of(encode_utf8(rest@)) == all,
        decreases encode_utf8(rest@).len(),
    {
        let bytes: &[u8] = rest.as_bytes();
        let ghost before = encoded(lines@);
        let ghost whole = encode_utf8(rest@);
        let end: usize = line_end(bytes, 0);
        proof {
            assert(bytes.len() == bytes@.len());
            assert(bytes@.skip(0) == bytes@);
            lines_end_with_line_feeds(whole);
        }
        if end == bytes.len() {
            let line: String = rest.to_owned();
            proof {
                assert(encoded(lines@.push(line)) == before.push(whole));
                assert(before.push(whole) == before + seq![whole]);
            }
            lines.push(line);
            return lines;
        }
        proof {
            cuts_before_ascii(rest@, end as int);
        }
        let (front, behind): (&str, &str) = rest.split_at(end);
        let line: String = if end > 0 && bytes[end - 1] == 0x0d {
            proof {
                cuts_before_ascii(front@, end - 1);
            }
            front.split_at(end - 1).0.to_owned()
        } else {
            front.to_owned()
        };
        proof {
            let ghost cut = encode_utf8(line@);
            assert(cut == if end > 0 && whole[end - 1] == 0x0d {
                whole.take(end - 1)
            } else {
                whole.take(end as int)
            });
            assert(encoded(lines@.push(line)) == before.push(cut));
            assert(lines_of(whole) == seq![cut] + lines_of(whole.skip(end + 1)));
            assert(before.push(cut) + lines_of(whole.skip(end + 1)) == before + lines_of(whole));
            cuts_behind_ascii(behind@);
        }
        lines.push(line);
        rest = behind.split_at(1).1;
        proof {
            assert(encode_utf8(rest@) == whole.skip(end + 1));
        }
    }
    proof {
        assert(encoded(lines@) + Seq::<Seq<u8>>::empty() == encoded(lines@));
    }
    lines
}

/// The number that decimal digits write.
pub open spec fn digits_written(bytes: Seq<u8>) -> int {
    bytes.fold_left(0, |number: int, byte: u8| 10 * number + (byte - 0x30))
}

/// Bytes are read as a number exactly where all of them are digits and the
/// number that they write is not above the limit; it is that number.
pub proof fn numbers_are_written(bytes: Seq<u8>, limit: nat)
    ensures
        number_of(bytes, limit) is Ok <==> (forall|k: int|
            0 <= k < bytes.len() ==> 0x30 <= #[trigger] bytes[k] <= 0x39) && digits_written(bytes)
            <= limit,
        number_of(bytes, limit) matches Ok(number) ==> number == digits_written(bytes),
        (forall|k: int| 0 <= k < bytes.len() ==> 0x30 <= #[trigger] bytes[k] <= 0x39)
            ==> digits_written(bytes) >= 0,
    decreases bytes.len(),
{
    if bytes.len() > 0 {
        let shorter = bytes.drop_last();
        numbers_are_written(shorter, limit);
        assert(forall|k: int| 0 <= k < shorter.len() ==> shorter[k] == bytes[k]);
        assert(bytes[bytes.len() - 1] == bytes.last());
        if forall|k: int| 0 <= k < bytes.len() ==> 0x30 <= #[trigger] bytes[k] <= 0x39 {
            assert forall|k: int| 0 <= k < shorter.len() implies 0x30 <= #[trigger] shorter[k]
                <= 0x39 by {
                assert(shorter[k] == bytes[k]);
            }
        }
        if number_of(bytes, limit) is Ok {
            assert forall|k: int| 0 <= k < bytes.len() implies 0x30 <= #[trigger] bytes[k]
                <= 0x39 by {
                if k < shorter.len() {
                    assert(shorter[k] == bytes[k]);
                }
            }
        }
    }
}

/// A plus sign in front of digits changes nothing, a sign alone is no digit,
/// and no text is no number.
pub proof fn plus_signs_change_nothing(bytes: Seq<u8>, limit: nat)
    requires
        bytes.len() > 0,
        bytes[0] != 0x2b,
    ensures
        size_of(bytes, limit) == number_of(bytes, limit),
        size_of(seq![0x2bu8] + bytes, limit) == number_of(bytes, limit),
        size_of(seq![0x2bu8], limit) == Err::<nat, SizeError>(SizeError::InvalidDigit),
        size_of(Seq::empty(), limit) == Err::<nat, SizeError>(SizeError::Empty),
{
    assert((seq![0x2bu8] + bytes).skip(1) =~= bytes);
}

/// A command is found by its own name.
pub proof fn commands_have_names(name: Seq<char>)
    ensures
        command_named(name) == Some(Command::Translate) <==> name == "translate"@,
        command_named(name) == Some(Command::Bench) <==> name == "bench"@,
{
    reveal_strlit("translate");
    reveal_strlit("bench");
    assert("translate"@.len() != "bench"@.len());
}

proof fn requests_shift(arguments: Seq<Seq<char>>, start: int, at: nat, done: RequestContents)
    requires
        0 <= start,
        start + at <= arguments.len(),
    ensures
        request_from(arguments.skip(start), at, done) == request_from(
            arguments,
            (start + at) as nat,
            done,
        ),
    decreases arguments.len() - start - at,
{
    let later = arguments.skip(start);
    if at < later.len() {
        assert(later[at as int] == arguments[start + at]);
        if arguments[start + at] != "--beam-size"@ {
            requests_shift(
                arguments,
                start,
                at + 1,
                RequestContents { text_parts: done.text_parts.push(later[at as int]), ..done },
            );
        } else if at + 1 < later.len() {
            assert(later[at as int + 1] == arguments[start + at + 1]);
            if let Ok(size) = size_in(later[at as int + 1]) {
                requests_shift(
                    arguments,
                    start,
                    at + 2,
                    RequestContents { beam_size: Some(size as usize), ..done },
                );
            }
        }
    }
}

/// What a request asks for behind another one: its text comes behind the other
/// text, and its beam size, if it has one, counts.
pub open spec fn asked_behind(first: RequestContents, second: RequestContents) -> RequestContents {
    RequestContents {
        beam_size: if second.beam_size is Some {
            second.beam_size
        } else {
            first.beam_size
        },
        text_parts: first.text_parts + second.text_parts,
    }
}

#[verifier::spinoff_prover]
#[verifier::rlimit(60)]
proof fn requests_follow(arguments: Seq<Seq<char>>, at: nat, done: RequestContents)
    requires
        at <= arguments.len(),
    ensures
        match request_from(
            arguments,
            at,
            RequestContents { beam_size: None, text_parts: Seq::empty() },
        ) {
            Ok(request) => request_from(arguments, at, done) == Ok::<
                RequestContents,
                ArgumentError,
            >(asked_behind(done, request)),
            Err(error) => request_from(arguments, at, done) == Err::<
                RequestContents,
                ArgumentError,
            >(error),
        },
    decreases arguments.len() - at,
{
    let empty = RequestContents { beam_size: None, text_parts: Seq::empty() };
    if at >= arguments.len() {
        assert(asked_behind(done, empty).text_parts =~= done.text_parts);
    } else if arguments[at as int] != "--beam-size"@ {
        let word = arguments[at as int];
        let with_word = RequestContents { text_parts: done.text_parts.push(word), ..done };
        let only_word = RequestContents { text_parts: empty.text_parts.push(word), ..empty };
        requests_follow(arguments, at + 1, with_word);
        requests_follow(arguments, at + 1, only_word);
        if let Ok(request) = request_from(arguments, at + 1, empty) {
            assert(asked_behind(with_word, request).text_parts =~= asked_behind(
                done,
                asked_behind(only_word, request),
            ).text_parts);
        }
    } else if at + 1 < arguments.len() {
        if let Ok(size) = size_in(arguments[at as int + 1]) {
            let with_size = RequestContents { beam_size: Some(size as usize), ..done };
            let only_size = RequestContents { beam_size: Some(size as usize), ..empty };
            requests_follow(arguments, at + 2, with_size);
            requests_follow(arguments, at + 2, only_size);
            if let Ok(request) = request_from(arguments, at + 2, empty) {
                assert(asked_behind(with_size, request).text_parts =~= asked_behind(
                    done,
                    asked_behind(only_size, request),
                ).text_parts);
            }
        }
    }
}

/// A word that announces no beam size is text in front of what follows. An
/// announced size counts unless another one follows, and must follow and be a
/// size. No arguments ask for nothing.
#[verifier::spinoff_prover]
#[verifier::rlimit(60)]
pub proof fn requests_go_on(word: Seq<char>, size: Seq<char>, rest: Seq<Seq<char>>)
    requires
        word != "--beam-size"@,
    ensures
        request_of(Seq::empty()) == Ok::<RequestContents, ArgumentError>(
            RequestContents { beam_size: None, text_parts: Seq::empty() },
        ),
        match request_of(rest) {
            Ok(request) => request_of(seq![word] + rest) matches Ok(all) && all.beam_size
                == request.beam_size && all.text_parts == seq![word] + request.text_parts,
            Err(error) => request_of(seq![word] + rest) == Err::<RequestContents, ArgumentError>(
                error,
            ),
        },
        request_of(seq!["--beam-size"@]) == Err::<RequestContents, ArgumentError>(
            ArgumentError::MissingBeamSize,
        ),
        match size_in(size) {
            Err(error) => request_of(seq!["--beam-size"@, size] + rest) == Err::<
                RequestContents,
                ArgumentError,
            >(ArgumentError::InvalidBeamSize(error)),
            Ok(number) => match request_of(rest) {
                Ok(request) => request_of(seq!["--beam-size"@, size] + rest) matches Ok(all)
                    && all.text_parts == request.text_parts && all.beam_size
                    == if request.beam_size is Some {
                    request.beam_size
                } else {
                    Some(number as usize)
                },
                Err(error) => request_of(seq!["--beam-size"@, size] + rest) == Err::<
                    RequestContents,
                    ArgumentError,
                >(error),
            },
        },
{
    let empty = RequestContents { beam_size: None, text_parts: Seq::empty() };
    let words = seq![word] + rest;
    assert(words[0] == word);
    assert(words.skip(1) =~= rest);
    let only_word = RequestContents { text_parts: empty.text_parts.push(word), ..empty };
    assert(only_word.text_parts =~= seq![word]);
    requests_shift(words, 1, 0, empty);
    requests_follow(words, 1, only_word);
    let sized = seq!["--beam-size"@, size] + rest;
    assert(sized[0] == "--beam-size"@ && sized[1] == size);
    assert(sized.skip(2) =~= rest);
    requests_shift(sized, 2, 0, empty);
    if let Ok(number) = size_in(size) {
        let only_size = RequestContents { beam_size: Some(number as usize), ..empty };
        requests_follow(sized, 2, only_size);
        if let Ok(request) = request_of(rest) {
            assert(asked_behind(only_size, request).text_parts =~= request.text_parts);
        }
    }
    let alone = seq!["--beam-size"@];
    assert(alone[0] == "--beam-size"@ && alone.len() == 1);
}

/// Texts are joined by single spaces, in order.
pub proof fn joined_texts_have_spaces(parts: Seq<Seq<char>>, last: Seq<char>)
    ensures
        joined(seq![last]) == last,
        parts.len() > 0 ==> joined(parts.push(last)) == joined(parts) + seq![' '] + last,
{
    reveal_strlit(" ");
    assert(" "@ =~= seq![' ']);
    assert(parts.push(last).drop_last() =~= parts);
}

/// Lines, each with an ending behind it.
pub open spec fn lines_written(lines: Seq<Seq<u8>>, ending: Seq<u8>) -> Seq<u8>
    decreases lines.len(),
{
    if lines.len() == 0 {
        Seq::empty()
    } else {
        lines[0] + ending + lines_written(lines.skip(1), ending)
    }
}

proof fn line_ends_first(line: Seq<u8>, rest: Seq<u8>)
    requires
        forall|k: int| 0 <= k < line.len() ==> #[trigger] line[k] != 0x0a,
    ensures
        line_length(line + seq![0x0au8] + rest) == line.len(),
    decreases line.len(),
{
    let all = line + seq![0x0au8] + rest;
    if line.len() > 0 {
        let shorter = line.skip(1);
        assert forall|k: int| 0 <= k < shorter.len() implies #[trigger] shorter[k] != 0x0a by {
            assert(shorter[k] == line[k + 1]);
        }
        line_ends_first(shorter, rest);
        assert(all.skip(1) =~= shorter + seq![0x0au8] + rest);
        assert(all[0] == line[0]);
    } else {
        assert(all[0] == 0x0a);
    }
}

/// Lines are read back as they were written, whether they end with a line feed
/// or with a carriage return and a line feed.
#[verifier::spinoff_prover]
#[verifier::rlimit(60)]
pub proof fn written_lines_are_read(lines: Seq<Seq<u8>>)
    requires
        forall|i: int, k: int|
            0 <= i < lines.len() && 0 <= k < lines[i].len() ==> #[trigger] lines[i][k] != 0x0a,
        forall|i: int|
            0 <= i < lines.len() && (#[trigger] lines[i]).len() > 0 ==> lines[i].last() != 0x0d,
    ensures
        lines_of(lines_written(lines, seq![0x0au8])) == lines,
        lines_of(lines_written(lines, seq![0x0du8, 0x0a])) == lines,
    decreases lines.len(),
{
    if lines.len() == 0 {
        assert(lines =~= Seq::<Seq<u8>>::empty());
    } else {
        let line = lines[0];
        let later = lines.skip(1);
        assert forall|i: int, k: int|
            0 <= i < later.len() && 0 <= k < later[i].len() implies #[trigger] later[i][k]
            != 0x0a by {
            assert(later[i][k] == lines[i + 1][k]);
        }
        assert forall|i: int|
            0 <= i < later.len() && (#[trigger] later[i]).len() > 0 implies later[i].last()
            != 0x0d by {
            assert(later[i] == lines[i + 1]);
        }
        written_lines_are_read(later);
        let feed = lines_written(later, seq![0x0au8]);
        let text = lines_written(lines, seq![0x0au8]);
        assert forall|k: int| 0 <= k < line.len() implies #[trigger] line[k] != 0x0a by {
            assert(lines[0][k] != 0x0a);
        }
        line_ends_first(line, feed);
        assert(text =~= line + seq![0x0au8] + feed);
        assert(text.take(line.len() as int) =~= line);
        assert(text.skip(line.len() as int + 1) =~= feed);
        if line.len() > 0 {
            assert(text[line.len() - 1] == line.last());
        }
        assert(seq![line] + later =~= lines);
        let returned = lines_written(later, seq![0x0du8, 0x0a]);
        let other = lines_written(lines, seq![0x0du8, 0x0a]);
        let longer = line.push(0x0d);
        assert forall|k: int| 0 <= k < longer.len() implies #[trigger] longer[k] != 0x0a by {
            if k < line.len() {
                assert(longer[k] == line[k]);
            }
        }
        line_ends_first(longer, returned);
        assert(other =~= longer + seq![0x0au8] + returned);
        assert(other[line.len() as int] == 0x0d);
        assert(other.take(line.len() as int) =~= line);
        assert(other.skip(longer.len() as int + 1) =~= returned);
    }
}

/// The contents of a request are what it holds.
pub proof fn requests_are_in_place(request: Request, k: int)
    requires
        0 <= k < request.text_parts@.len(),
    ensures
        request@.beam_size == request.beam_size,
        request@.text_parts.len() == request.text_parts@.len(),
        request@.text_parts[k] == request.text_parts@[k]@,
{
}

/// A file is taken as compressed exactly where its name ends in `.gz`.
pub proof fn compressed_files_have_endings(path: Seq<char>)
    ensures
        names_gzip(path) <==> {
            let name = encode_utf8(path);
            let len = name.len() as int;
            len >= 3 && name[len - 3] == 0x2e && name[len - 2] == 0x67 && name[len - 1] == 0x7a
        },
{
    let name = encode_utf8(path);
    let len = name.len() as int;
    if len >= 3 {
        let tail = name.skip(len - 3);
        assert(tail[0] == name[len - 3] && tail[1] == name[len - 2] && tail[2] == name[len - 1]);
        if name[len - 3] == 0x2e && name[len - 2] == 0x67 && name[len - 1] == 0x7a {
            assert(tail =~= seq![0x2eu8, 0x67, 0x7a]);
        }
        if tail == seq![0x2eu8, 0x67, 0x7a] {
            assert(tail[0] == 0x2e && tail[1] == 0x67 && tail[2] == 0x7a);
        }
    }
}

proof fn blanks_lead(blanks: Seq<u8>, rest: Seq<u8>)
    requires
        forall|k: int|
            0 <= k < blanks.len() ==> #[trigger] blanks[k] == 0x20 || blanks[k] == 0x09,
        rest.len() > 0,
        0x30 <= rest[0] <= 0x39,
    ensures
        leading_spaces(blanks + rest) == blanks.len(),
    decreases blanks.len(),
{
    let all = blanks + rest;
    if blanks.len() == 0 {
        assert(all[0] == rest[0]);
    } else {
        let fewer = blanks.skip(1);
        assert forall|k: int| 0 <= k < fewer.len() implies #[trigger] fewer[k] == 0x20 || fewer[k]
            == 0x09 by {
            assert(fewer[k] == blanks[k + 1]);
        }
        assert(all[0] == blanks[0]);
        assert(all.skip(1) =~= fewer + rest);
        blanks_lead(fewer, rest);
    }
}

proof fn digits_are_a_word(digits: Seq<u8>, tail: Seq<u8>)
    requires
        forall|k: int| 0 <= k < digits.len() ==> 0x30 <= #[trigger] digits[k] <= 0x39,
        tail.len() > 0 ==> tail[0] == 0x20,
    ensures
        word_length(digits + tail) == digits.len(),
    decreases digits.len(),
{
    let all = digits + tail;
    if digits.len() == 0 {
        if tail.len() > 0 {
            assert(all[0] == tail[0]);
        }
    } else {
        let fewer = digits.skip(1);
        assert forall|k: int| 0 <= k < fewer.len() implies 0x30 <= #[trigger] fewer[k] <= 0x39 by {
            assert(fewer[k] == digits[k + 1]);
        }
        assert(all[0] == digits[0]);
        assert(all.skip(1) =~= fewer + tail);
        digits_are_a_word(fewer, tail);
    }
}

/// A line that does not start with a name is passed over.
pub proof fn other_lines_are_passed_over(line: Seq<u8>, rest: Seq<u8>, name: Seq<u8>)
    requires
        forall|k: int| 0 <= k < line.len() ==> #[trigger] line[k] != 0x0a,
        line.len() < name.len() || line.take(name.len() as int) != name,
    ensures
        value_in(line + seq![0x0au8] + rest, name) == value_in(rest, name),
{
    let status = line + seq![0x0au8] + rest;
    line_ends_first(line, rest);
    assert(status.take(line.len() as int) =~= line);
    assert(status.skip(line.len() as int + 1) =~= rest);
}

/// The value behind a name in a line is the number that the digits behind the
/// blanks write, whatever follows them in words of their own.
pub proof fn values_stand_behind_names(
    name: Seq<u8>,
    blanks: Seq<u8>,
    digits: Seq<u8>,
    tail: Seq<u8>,
    rest: Seq<u8>,
)
    requires
        forall|k: int| 0 <= k < name.len() ==> #[trigger] name[k] != 0x0a,
        forall|k: int|
            0 <= k < blanks.len() ==> #[trigger] blanks[k] == 0x20 || blanks[k] == 0x09,
        digits.len() > 0,
        forall|k: int| 0 <= k < digits.len() ==> 0x30 <= #[trigger] digits[k] <= 0x39,
        digits_written(digits) <= u64::MAX,
        tail.len() > 0 ==> tail[0] == 0x20,
        forall|k: int| 0 <= k < tail.len() ==> #[trigger] tail[k] != 0x0a,
    ensures
        value_in(name + (blanks + (digits + tail)) + seq![0x0au8] + rest, name) == Some(
            digits_written(digits) as nat,
        ),
{
    let words = blanks + (digits + tail);
    let line = name + words;
    let status = line + seq![0x0au8] + rest;
    assert forall|k: int| 0 <= k < line.len() implies #[trigger] line[k] != 0x0a by {
        if k < name.len() {
            assert(line[k] == name[k]);
        } else if k < name.len() + blanks.len() {
            assert(line[k] == blanks[k - name.len()]);
        } else if k < name.len() + blanks.len() + digits.len() {
            assert(line[k] == digits[k - name.len() - blanks.len()]);
        } else {
            assert(line[k] == tail[k - name.len() - blanks.len() - digits.len()]);
        }
    }
    line_ends_first(line, rest);
    assert(status.take(line.len() as int) =~= line);
    assert(line.take(name.len() as int) =~= name);
    assert(line.skip(name.len() as int) =~= words);
    assert((digits + tail)[0] == digits[0]);
    blanks_lead(blanks, digits + tail);
    assert(words.skip(blanks.len() as int) =~= digits + tail);
    digits_are_a_word(digits, tail);
    assert((digits + tail).take(digits.len() as int) =~= digits);
    assert(first_word(words) == digits);
    numbers_are_written(digits, u64::MAX as nat);
    assert(digits[0] != 0x2b);
    assert(size_of(digits, u64::MAX as nat) == number_of(digits, u64::MAX as nat));
}

/// Texts are listed one for one, in order.
pub proof fn texts_are_listed_in_order(texts: Seq<String>)
    ensures
        texts_of(texts).len() == texts.len(),
        forall|k: int| 0 <= k < texts.len() ==> #[trigger] texts_of(texts)[k] == texts[k]@,
        encoded(texts).len() == texts.len(),
        forall|k: int|
            0 <= k < texts.len() ==> #[trigger] encoded(texts)[k] == encode_utf8(texts[k]@),
{
}

} // verus!
