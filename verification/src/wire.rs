//! Fields of serialized protocol buffers.
//!
//! A vocabulary is such a message. What stands in it is looked at here, so that
//! a vocabulary, or a text, that cannot be handled can be told beforehand.

use crate::bytes::{le32, word32};
use crate::rules::parts_of;
use vstd::prelude::*;

verus! {

/// The number that a run of bytes encodes, seven bits per byte, and the
/// position behind it; `None` where it does not end within ten bytes.
pub open spec fn varint(bytes: Seq<u8>, at: int, scale: nat, left: nat) -> Option<(nat, int)>
    decreases left,
{
    if left == 0 || at >= bytes.len() {
        None
    } else if bytes[at] < 0x80 {
        Some((bytes[at] as nat * scale, at + 1))
    } else {
        match varint(bytes, at + 1, 0x80 * scale, (left - 1) as nat) {
            None => None,
            Some((rest, next)) => Some((((bytes[at] - 0x80) * scale + rest) as nat, next)),
        }
    }
}

/// The low 64 bits of the number at a position, and the position behind it.
pub open spec fn number_at(bytes: Seq<u8>, at: int) -> Option<(u64, int)> {
    match varint(bytes, at, 1, 10) {
        None => None,
        Some((value, next)) => Some(((value % 0x1_0000_0000_0000_0000) as u64, next)),
    }
}

proof fn varint_advances(bytes: Seq<u8>, at: int, scale: nat, left: nat)
    requires
        0 <= at,
    ensures
        varint(bytes, at, scale, left) matches Some((_, next)) ==> at < next <= bytes.len(),
    decreases left,
{
    if left > 0 && at < bytes.len() && bytes[at] >= 0x80 {
        varint_advances(bytes, at + 1, 0x80 * scale, (left - 1) as nat);
    }
}

/// Reads the number at a position.
fn read_number(bytes: &[u8], at: usize) -> (read: Option<(u64, usize)>)
    requires
        at <= bytes@.len(),
    ensures
        match read {
            Some((value, next)) => number_at(bytes@, at as int) == Some((value, next as int)) && at
                < next <= bytes@.len(),
            None => number_at(bytes@, at as int) is None,
        },
{
    let mut value: u128 = 0;
    let mut scale: u128 = 1;
    let mut count: usize = 0;
    let mut position: usize = at;
    let ghost expected = varint(bytes@, at as int, 1, 10);
    proof {
        vstd::arithmetic::power::lemma_pow0(0x80);
    }
    while count < 10
        invariant
            count <= 10,
            at <= position <= bytes@.len(),
            position == at + count,
            expected == varint(bytes@, at as int, 1, 10),
            value < scale,
            scale == vstd::arithmetic::power::pow(0x80, count as nat),
            match varint(bytes@, position as int, scale as nat, (10 - count) as nat) {
                Some((rest, next)) => expected == Some(((value + rest) as nat, next)),
                None => expected is None,
            },
        decreases 10 - count,
    {
        if position >= bytes.len() {
            return None;
        }
        let byte: u8 = bytes[position];
        proof {
            scale_bound(count as nat);
            assert(bytes.len() == bytes@.len());
            vstd::arithmetic::power::lemma_pow1(0x80);
            vstd::arithmetic::power::lemma_pow_adds(0x80, count as nat, 1);
            assert(byte as u128 * scale <= 0xff * scale) by (nonlinear_arith)
                requires
                    byte <= 0xff,
            ;
            assert(scale * 0x80 == 0x80 * scale) by (nonlinear_arith);
        }
        if byte < 0x80 {
            proof {
                assert(byte as nat * (scale as nat) == byte as u128 * scale);
                varint_advances(bytes@, at as int, 1, 10);
            }
            let total: u128 = value + byte as u128 * scale;
            return Some(((total % 0x1_0000_0000_0000_0000) as u64, position + 1));
        }
        proof {
            assert((byte - 0x80) * scale <= 0x7f * scale) by (nonlinear_arith)
                requires
                    byte <= 0xff,
                    scale >= 0,
            ;
        }
        value = value + (byte as u128 - 0x80) * scale;
        scale = 0x80 * scale;
        count = count + 1;
        position = position + 1;
    }
    None
}

proof fn scale_bound(count: nat)
    requires
        count < 10,
    ensures
        1 <= vstd::arithmetic::power::pow(0x80, count) <= 0x8000_0000_0000_0000,
{
    vstd::arithmetic::power::lemma_pow_positive(0x80, count);
    vstd::arithmetic::power::lemma_pow_increases(0x80, count, 9);
    assert(vstd::arithmetic::power::pow(0x80, 9) == 0x8000_0000_0000_0000) by {
        reveal(vstd::arithmetic::power::pow);
        reveal_with_fuel(vstd::arithmetic::power::pow, 10);
    }
}

/// A field of a message: its number, its wire type, and where the bytes of its
/// value stand.
pub struct Field {
    /// Number of the field.
    pub number: u32,
    /// Wire type.
    pub wire: u64,
    /// Position of the value.
    pub start: usize,
    /// Position behind the value.
    pub end: usize,
}

/// Wire type of a value that is a number.
pub const NUMBER: u64 = 0;

/// Wire type of a value that is a run of bytes.
pub const RUN_OF_BYTES: u64 = 2;

/// Where the value of a field with the given wire type stands, for a value that
/// begins at `at`; `None` where it does not fit or the wire type is unknown.
pub open spec fn value_at(bytes: Seq<u8>, wire: u64, at: int) -> Option<(int, int)> {
    let span = if wire == NUMBER {
        match number_at(bytes, at) {
            None => None,
            Some((_, end)) => Some((at, end)),
        }
    } else if wire == 1 {
        Some((at, at + 8))
    } else if wire == RUN_OF_BYTES {
        match number_at(bytes, at) {
            None => None,
            Some((len, start)) => Some((start, start + len as usize)),
        }
    } else if wire == 5 {
        Some((at, at + 4))
    } else {
        None
    };
    match span {
        Some((_, end)) if end > bytes.len() => None,
        _ => span,
    }
}

/// The number and wire type of the field at a position, and where its value
/// stands; `None` where no field stands there.
pub open spec fn field_at(bytes: Seq<u8>, at: int) -> Option<(u32, u64, int, int)> {
    match number_at(bytes, at) {
        None => None,
        Some((key, body)) => match value_at(bytes, key % 8, body) {
            None => None,
            Some((start, end)) => if (key / 8) as u32 == 0 {
                None
            } else {
                Some(((key / 8) as u32, key % 8, start, end))
            },
        },
    }
}

/// A field lies behind its position and inside the message.
proof fn field_advances(bytes: Seq<u8>, at: int)
    requires
        0 <= at,
    ensures
        field_at(bytes, at) matches Some((_, _, start, end)) ==> at < start <= end <= bytes.len(),
{
    varint_advances(bytes, at, 1, 10);
    if let Some((_, body)) = number_at(bytes, at) {
        varint_advances(bytes, body, 1, 10);
    }
}

/// Reads the field at a position.
fn read_field(bytes: &[u8], at: usize) -> (read: Option<Field>)
    requires
        at <= bytes@.len(),
    ensures
        match read {
            Some(field) => {
                &&& field_at(bytes@, at as int) == Some(
                    (field.number, field.wire, field.start as int, field.end as int),
                )
                &&& at < field.start <= field.end <= bytes@.len()
            },
            None => field_at(bytes@, at as int) is None,
        },
{
    assert(bytes.len() == bytes@.len());
    proof {
        field_advances(bytes@, at as int);
    }
    let (key, body): (u64, usize) = match read_number(bytes, at) {
        None => {
            return None;
        },
        Some(read) => read,
    };
    let wire: u64 = key % 8;
    let number: u32 =
        #[verifier::truncate]
        ((key / 8) as u32);
    let mut start: usize = body;
    let mut size: usize = 0;
    if wire == NUMBER || wire == RUN_OF_BYTES {
        match read_number(bytes, body) {
            None => {
                return None;
            },
            Some((value, next)) => {
                if wire == NUMBER {
                    size = next - body;
                } else {
                    start = next;
                    size =
                    #[verifier::truncate]
                    (value as usize);
                }
            },
        }
    } else if wire == 1 {
        size = 8;
    } else if wire == 5 {
        size = 4;
    } else {
        return None;
    }
    if size > bytes.len() - start || number == 0 {
        return None;
    }
    Some(Field { number, wire, start, end: start + size })
}

/// Where the last value with the given field number and wire type stands, from
/// the field at `at` on, where `found` stands before that; `None` where a field
/// is malformed.
pub open spec fn last_value(
    bytes: Seq<u8>,
    number: u32,
    kind: u64,
    at: int,
    found: Option<(int, int)>,
) -> Option<Option<(int, int)>>
    decreases bytes.len() - at,
{
    if at >= bytes.len() {
        Some(found)
    } else {
        match field_at(bytes, at) {
            None => None,
            Some((tag, wire, start, end)) => if end <= at {
                None
            } else if tag == number && wire == kind {
                last_value(bytes, number, kind, end, Some((start, end)))
            } else {
                last_value(bytes, number, kind, end, found)
            },
        }
    }
}

/// Where the last value with the given field number and wire type stands in a
/// message; `None` where there is none or the message is malformed.
pub open spec fn value_span(bytes: Seq<u8>, number: u32, kind: u64) -> Option<(int, int)> {
    match last_value(bytes, number, kind, 0, None) {
        Some(found) => found,
        None => None,
    }
}

/// The bytes of the last run with the given field number in a message.
pub open spec fn run_of(bytes: Seq<u8>, number: u32) -> Option<Seq<u8>> {
    match value_span(bytes, number, RUN_OF_BYTES) {
        Some((start, end)) => Some(bytes.subrange(start, end)),
        None => None,
    }
}

/// The low 32 bits of the last number with the given field number in a message.
pub open spec fn number_of(bytes: Seq<u8>, number: u32) -> Option<u64> {
    match value_span(bytes, number, NUMBER) {
        Some((start, _)) => match number_at(bytes, start) {
            Some((value, _)) => Some(value % 0x1_0000_0000),
            None => None,
        },
        None => None,
    }
}

/// Finds the last value with the given field number and wire type in a message.
pub fn find_value(bytes: &[u8], number: u32, kind: u64) -> (found: Option<(usize, usize)>)
    ensures
        match found {
            Some((start, end)) => start <= end <= bytes@.len() && value_span(bytes@, number, kind)
                == Some((start as int, end as int)),
            None => value_span(bytes@, number, kind) is None,
        },
{
    let mut position: usize = 0;
    let mut found: Option<(usize, usize)> = None;
    let ghost expected = last_value(bytes@, number, kind, 0, None);
    assert(bytes.len() == bytes@.len());
    while position < bytes.len()
        invariant
            bytes.len() == bytes@.len(),
            position <= bytes@.len(),
            found matches Some((start, end)) ==> start <= end <= bytes@.len(),
            expected == last_value(bytes@, number, kind, 0, None),
            expected == last_value(
                bytes@,
                number,
                kind,
                position as int,
                match found {
                    Some((start, end)) => Some((start as int, end as int)),
                    None => None,
                },
            ),
        decreases bytes@.len() - position,
    {
        match read_field(bytes, position) {
            None => {
                return None;
            },
            Some(field) => {
                if field.number == number && field.wire == kind {
                    found = Some((field.start, field.end));
                }
                position = field.end;
            },
        }
    }
    found
}

/// Finds the last run of bytes with the given field number in a message.
pub fn find_run(bytes: &[u8], number: u32) -> (run: Option<(usize, usize)>)
    ensures
        match run {
            Some((start, end)) => start <= end <= bytes@.len() && run_of(bytes@, number) == Some(
                bytes@.subrange(start as int, end as int),
            ),
            None => run_of(bytes@, number) is None,
        },
{
    find_value(bytes, number, RUN_OF_BYTES)
}

/// Finds the low 32 bits of the last number with the given field number in a
/// message.
pub fn find_number(bytes: &[u8], number: u32) -> (value: Option<u64>)
    ensures
        value == number_of(bytes@, number),
{
    match find_value(bytes, number, NUMBER) {
        None => None,
        Some((start, _)) => match read_number(bytes, start) {
            None => None,
            Some((value, _)) => Some(value % 0x1_0000_0000),
        },
    }
}

/// Whether normalization rules end inside the table that their first four bytes
/// announce, though they are longer than its size alone.
pub open spec fn breaks_off(rules: Seq<u8>) -> bool {
    &&& rules.len() > 4
    &&& le32(rules, 0) >= 1024
    &&& le32(rules, 0) % 1024 == 0
    &&& le32(rules, 0) < rules.len() < le32(rules, 0) + 4
}

/// Field number of the normalization rules of a vocabulary.
pub const NORMALIZER: u32 = 3;

/// Field number of the denormalization rules of a vocabulary.
pub const DENORMALIZER: u32 = 5;

/// Field number of the rules' table.
pub const TABLE: u32 = 2;

/// Field number of the pieces of a vocabulary.
pub const PIECE: u32 = 1;

/// Field number of a piece's text.
pub const PIECE_TEXT: u32 = 1;

/// Field number of a piece's kind.
pub const PIECE_KIND: u32 = 3;

/// The kind of a piece that a user defined.
pub const USER_DEFINED: u64 = 4;

/// The kind of a piece that is not used.
pub const UNUSED: u64 = 5;

/// Field number of how a vocabulary was trained.
pub const TRAINER: u32 = 2;

/// Field number of the method of training.
pub const METHOD: u32 = 3;

/// The method that merges pairs of pieces.
pub const PAIR_MERGING: u64 = 2;

/// The table of the rules under the given field number of a vocabulary.
pub open spec fn table_of(model: Seq<u8>, number: u32) -> Option<Seq<u8>> {
    match run_of(model, number) {
        None => None,
        Some(rules) => run_of(rules, TABLE),
    }
}

/// Finds the table of the rules under the given field number of a vocabulary.
pub fn find_table(model: &[u8], number: u32) -> (table: Option<&[u8]>)
    ensures
        match table {
            Some(table) => table_of(model@, number) == Some(table@),
            None => table_of(model@, number) is None,
        },
{
    match find_run(model, number) {
        None => None,
        Some((start, end)) => {
            let rules: &[u8] = vstd::slice::slice_subrange(model, start, end);
            match find_run(rules, TABLE) {
                None => None,
                Some((first, last)) => Some(vstd::slice::slice_subrange(rules, first, last)),
            }
        },
    }
}

/// Whether the rules under the given field number of a vocabulary break off.
pub open spec fn rules_break_off(model: Seq<u8>, number: u32) -> bool {
    table_of(model, number) matches Some(table) && breaks_off(table)
}

/// Tells whether the rules under the given field number of a vocabulary break
/// off.
pub fn check_rules(model: &[u8], number: u32) -> (broken: bool)
    ensures
        broken == rules_break_off(model@, number),
{
    match find_table(model, number) {
        None => false,
        Some(table) => {
            if table.len() <= 4 {
                return false;
            }
            let size: usize = word32(table, 0) as usize;
            size >= 1024 && size % 1024 == 0 && size < table.len() && table.len() - size < 4
        },
    }
}

/// The texts of the pieces of a kind in a vocabulary, from the field at `at`
/// on, behind those already found.
pub open spec fn more_pieces(model: Seq<u8>, kind: u64, at: int, found: Seq<Seq<u8>>) -> Seq<
    Seq<u8>,
>
    decreases model.len() - at,
{
    if at >= model.len() {
        found
    } else {
        match field_at(model, at) {
            None => found,
            Some((tag, wire, start, end)) => {
                let piece = model.subrange(start, end);
                if end <= at {
                    found
                } else if tag == PIECE && wire == RUN_OF_BYTES && number_of(piece, PIECE_KIND)
                    == Some(kind) && run_of(piece, PIECE_TEXT) is Some {
                    more_pieces(model, kind, end, found.push(run_of(piece, PIECE_TEXT)->0))
                } else {
                    more_pieces(model, kind, end, found)
                }
            },
        }
    }
}

/// The texts of the pieces of a kind in a vocabulary.
pub open spec fn pieces_of_kind(model: Seq<u8>, kind: u64) -> Seq<Seq<u8>> {
    more_pieces(model, kind, 0, Seq::empty())
}

/// Finds the text of a piece, where the piece is of a kind.
fn find_text(piece: &[u8], kind: u64) -> (text: Option<Vec<u8>>)
    ensures
        match text {
            Some(text) => number_of(piece@, PIECE_KIND) == Some(kind) && run_of(piece@, PIECE_TEXT)
                == Some(text@),
            None => number_of(piece@, PIECE_KIND) != Some(kind) || run_of(piece@, PIECE_TEXT)
                is None,
        },
{
    match find_number(piece, PIECE_KIND) {
        None => None,
        Some(found) => if found != kind {
            None
        } else {
            match find_run(piece, PIECE_TEXT) {
                None => None,
                Some((start, end)) => Some(
                    vstd::slice::slice_to_vec(vstd::slice::slice_subrange(piece, start, end)),
                ),
            }
        },
    }
}

/// Finds the texts of the pieces of a kind in a vocabulary.
pub fn find_pieces(model: &[u8], kind: u64) -> (texts: Vec<Vec<u8>>)
    ensures
        parts_of(texts@) == pieces_of_kind(model@, kind),
{
    let mut texts: Vec<Vec<u8>> = Vec::new();
    let mut position: usize = 0;
    assert(model.len() == model@.len());
    proof {
        assert(parts_of(texts@) == Seq::<Seq<u8>>::empty());
    }
    while position < model.len()
        invariant
            model.len() == model@.len(),
            position <= model@.len(),
            pieces_of_kind(model@, kind) == more_pieces(
                model@,
                kind,
                position as int,
                parts_of(texts@),
            ),
        decreases model@.len() - position,
    {
        match read_field(model, position) {
            None => {
                return texts;
            },
            Some(field) => {
                if field.number == PIECE && field.wire == RUN_OF_BYTES {
                    let piece: &[u8] = vstd::slice::slice_subrange(model, field.start, field.end);
                    match find_text(piece, kind) {
                        Some(text) => {
                            let ghost before = parts_of(texts@);
                            texts.push(text);
                            proof {
                                assert(parts_of(texts@) == before.push(text@));
                            }
                        },
                        None => {},
                    }
                }
                position = field.end;
            },
        }
    }
    texts
}

/// Whether a vocabulary merges pairs of pieces.
pub open spec fn merges_pairs(model: Seq<u8>) -> bool {
    run_of(model, TRAINER) matches Some(trainer) && number_of(trainer, METHOD) == Some(PAIR_MERGING)
}

/// Tells whether a vocabulary merges pairs of pieces.
pub fn check_merging(model: &[u8]) -> (merges: bool)
    ensures
        merges == merges_pairs(model@),
{
    match find_run(model, TRAINER) {
        None => false,
        Some((start, end)) => match find_number(
            vstd::slice::slice_subrange(model, start, end),
            METHOD,
        ) {
            None => false,
            Some(method) => method == PAIR_MERGING,
        },
    }
}

/// A vocabulary with empty denormalization rules behind all of its fields, which
/// take the place of those it has.
pub open spec fn without_denormalizer(model: Seq<u8>) -> Seq<u8> {
    model + seq![0x2au8, 0x00u8]
}

proof fn varint_extends(bytes: Seq<u8>, tail: Seq<u8>, at: int, scale: nat, left: nat)
    requires
        0 <= at,
        varint(bytes, at, scale, left) is Some,
    ensures
        varint(bytes + tail, at, scale, left) == varint(bytes, at, scale, left),
    decreases left,
{
    if bytes[at] >= 0x80 {
        varint_extends(bytes, tail, at + 1, 0x80 * scale, (left - 1) as nat);
    }
}

proof fn field_extends(bytes: Seq<u8>, tail: Seq<u8>, at: int)
    requires
        0 <= at,
        field_at(bytes, at) is Some,
    ensures
        field_at(bytes + tail, at) == field_at(bytes, at),
{
    varint_extends(bytes, tail, at, 1, 10);
    varint_advances(bytes, at, 1, 10);
    let (key, body) = number_at(bytes, at)->0;
    if key % 8 == NUMBER || key % 8 == RUN_OF_BYTES {
        varint_extends(bytes, tail, body, 1, 10);
    }
}

/// Where the fields of a message are well formed, those behind them follow.
proof fn values_extend(
    bytes: Seq<u8>,
    tail: Seq<u8>,
    number: u32,
    kind: u64,
    at: int,
    found: Option<(int, int)>,
)
    requires
        0 <= at <= bytes.len(),
        last_value(bytes, number, kind, at, found) is Some,
    ensures
        last_value(bytes + tail, number, kind, at, found) == last_value(
            bytes + tail,
            number,
            kind,
            bytes.len() as int,
            last_value(bytes, number, kind, at, found)->0,
        ),
    decreases bytes.len() - at,
{
    if at < bytes.len() {
        field_extends(bytes, tail, at);
        field_advances(bytes, at);
        let (tag, wire, start, end) = field_at(bytes, at)->0;
        values_extend(
            bytes,
            tail,
            number,
            kind,
            end,
            if tag == number && wire == kind {
                Some((start, end))
            } else {
                found
            },
        );
    }
}

/// The fields of a message are well formed, or not, whichever is looked for.
proof fn values_agree(
    bytes: Seq<u8>,
    number: u32,
    other: u32,
    kind: u64,
    at: int,
    found: Option<(int, int)>,
    other_found: Option<(int, int)>,
)
    requires
        0 <= at,
        last_value(bytes, number, kind, at, found) is Some,
    ensures
        last_value(bytes, other, kind, at, other_found) is Some,
    decreases bytes.len() - at,
{
    if at < bytes.len() {
        field_advances(bytes, at);
        let (tag, wire, start, end) = field_at(bytes, at)->0;
        values_agree(
            bytes,
            number,
            other,
            kind,
            end,
            if tag == number && wire == kind {
                Some((start, end))
            } else {
                found
            },
            if tag == other && wire == kind {
                Some((start, end))
            } else {
                other_found
            },
        );
    }
}

proof fn values_are_inside(
    bytes: Seq<u8>,
    number: u32,
    kind: u64,
    at: int,
    found: Option<(int, int)>,
)
    requires
        0 <= at,
        found matches Some((start, end)) ==> 0 <= start <= end <= bytes.len(),
    ensures
        last_value(bytes, number, kind, at, found) matches Some(Some((start, end))) ==> 0 <= start
            <= end <= bytes.len(),
    decreases bytes.len() - at,
{
    if at < bytes.len() {
        if let Some((tag, wire, start, end)) = field_at(bytes, at) {
            field_advances(bytes, at);
            values_are_inside(
                bytes,
                number,
                kind,
                end,
                if tag == number && wire == kind {
                    Some((start, end))
                } else {
                    found
                },
            );
        }
    }
}

/// The field behind a vocabulary.
proof fn appended_field(model: Seq<u8>)
    ensures
        field_at(without_denormalizer(model), model.len() as int) == Some(
            (DENORMALIZER, RUN_OF_BYTES, model.len() as int + 2, model.len() as int + 2),
        ),
{
    let plain = without_denormalizer(model);
    let len = model.len() as int;
    assert(plain[len] == 0x2a);
    assert(plain[len + 1] == 0);
    assert(varint(plain, len, 1, 10) == Some((0x2anat, len + 1)));
    assert(varint(plain, len + 1, 1, 10) == Some((0nat, len + 2)));
    assert(number_at(plain, len) == Some((0x2au64, len + 1)));
    assert(number_at(plain, len + 1) == Some((0u64, len + 2)));
}

/// The last value with a field number, where a field is appended.
proof fn appended_value(model: Seq<u8>, number: u32)
    requires
        last_value(model, number, RUN_OF_BYTES, 0, None) is Some,
    ensures
        value_span(without_denormalizer(model), number, RUN_OF_BYTES) == if number == DENORMALIZER {
            Some((model.len() as int + 2, model.len() as int + 2))
        } else {
            value_span(model, number, RUN_OF_BYTES)
        },
{
    let plain = without_denormalizer(model);
    let len = model.len() as int;
    let before = last_value(model, number, RUN_OF_BYTES, 0, None)->0;
    let after = if number == DENORMALIZER {
        Some((len + 2, len + 2))
    } else {
        before
    };
    values_extend(model, seq![0x2au8, 0x00u8], number, RUN_OF_BYTES, 0, None);
    appended_field(model);
    assert(plain.len() == len + 2);
    assert(last_value(plain, number, RUN_OF_BYTES, len + 2, after) == Some(after));
    assert(last_value(plain, number, RUN_OF_BYTES, len, before) == Some(after));
}

/// A vocabulary with denormalization rules loses them, and keeps its
/// normalization rules.
pub proof fn denormalizers_are_replaced(model: Seq<u8>)
    requires
        table_of(model, DENORMALIZER) is Some,
    ensures
        table_of(without_denormalizer(model), DENORMALIZER) is None,
        table_of(without_denormalizer(model), NORMALIZER) == table_of(model, NORMALIZER),
{
    let plain = without_denormalizer(model);
    let len = model.len() as int;
    values_agree(model, DENORMALIZER, NORMALIZER, RUN_OF_BYTES, 0, None, None);
    appended_value(model, DENORMALIZER);
    appended_value(model, NORMALIZER);
    values_are_inside(model, NORMALIZER, RUN_OF_BYTES, 0, None);
    assert(plain.subrange(len + 2, len + 2) == Seq::<u8>::empty());
    assert(run_of(Seq::<u8>::empty(), TABLE) is None);
    if let Some((start, end)) = value_span(model, NORMALIZER, RUN_OF_BYTES) {
        assert(plain.subrange(start, end) == model.subrange(start, end));
    }
}

/// A run of bytes that is written as a field is found under its number, and
/// under no other number.
pub proof fn written_runs_are_found(number: u32, other: u32, run: Seq<u8>)
    requires
        1 <= number < 16,
        run.len() < 128,
    ensures
        run_of(seq![(8 * number + 2) as u8, run.len() as u8] + run, number) == Some(run),
        other != number ==> run_of(
            seq![(8 * number + 2) as u8, run.len() as u8] + run,
            other,
        ) is None,
{
    let bytes = seq![(8 * number + 2) as u8, run.len() as u8] + run;
    let end = bytes.len() as int;
    assert(bytes[0] == 8 * number + 2);
    assert(bytes[1] == run.len());
    assert(varint(bytes, 0, 1, 10) == Some(((8 * number + 2) as nat, 1int)));
    assert(varint(bytes, 1, 1, 10) == Some((run.len(), 2int)));
    assert(number_at(bytes, 0) == Some(((8 * number + 2) as u64, 1int)));
    assert(number_at(bytes, 1) == Some((run.len() as u64, 2int)));
    assert(field_at(bytes, 0) == Some((number, RUN_OF_BYTES, 2int, end)));
    assert(bytes.subrange(2, end) =~= run);
    assert(last_value(bytes, number, RUN_OF_BYTES, end, Some((2int, end))) == Some(
        Some((2int, end)),
    ));
    assert(last_value(bytes, other, RUN_OF_BYTES, end, None) == Some(None::<(int, int)>));
}

/// A number is written with seven bits per byte, the lowest first, and a mark
/// on every byte but the last.
pub proof fn written_numbers_go_on(bytes: Seq<u8>, at: int, scale: nat, left: nat)
    requires
        0 <= at < bytes.len(),
        left > 0,
    ensures
        bytes[at] < 0x80 ==> varint(bytes, at, scale, left) == Some(
            ((bytes[at] * scale) as nat, at + 1),
        ),
        bytes[at] >= 0x80 ==> match varint(bytes, at + 1, 0x80 * scale, (left - 1) as nat) {
            Some((rest, next)) => varint(bytes, at, scale, left) matches Some((value, end)) && end
                == next && value == (bytes[at] - 0x80) * scale + rest,
            None => varint(bytes, at, scale, left) is None,
        },
{
    assert(0 <= bytes[at] * scale) by (nonlinear_arith)
        requires
            0 <= scale,
    ;
    if bytes[at] >= 0x80 {
        let part = bytes[at] - 0x80;
        assert(0 <= part * scale) by (nonlinear_arith)
            requires
                0 <= part,
                0 <= scale,
        ;
    }
}

} // verus!
