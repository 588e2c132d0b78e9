//! Tables of text rules.
//!
//! A table begins with the size of a double-array trie, whose units follow;
//! the replacements stand behind them. The keys of the trie are what the rules
//! replace. A text is gone through from its start: at each position a symbol is
//! passed, or a rule is applied, or a character is passed. No position may lie
//! inside a character.

use crate::bytes::{le32, same_bytes, word32};
use vstd::prelude::*;

verus! {

/// Number of units of a table's trie.
pub open spec fn unit_count(table: Seq<u8>) -> nat {
    if table.len() >= 4 && le32(table, 0) + 4 <= table.len() {
        le32(table, 0) / 4
    } else {
        0
    }
}

/// A unit of a table's trie.
pub open spec fn unit_at(table: Seq<u8>, at: u32) -> u32 {
    le32(table, 4 + 4 * at) as u32
}

/// What leads from a unit to its children: the upper bits of the unit, with
/// eight more zeros behind them where bit nine is set.
pub open spec fn unit_offset(unit: u32) -> u32 {
    if unit / 0x200 % 2 == 1 {
        (unit / 0x400 * 0x100) as u32
    } else {
        unit / 0x400
    }
}

/// Where the children of a unit begin.
pub open spec fn child_base(table: Seq<u8>, at: u32) -> u32 {
    at ^ unit_offset(unit_at(table, at))
}

/// The unit is labelled with the byte.
pub open spec fn is_labelled(unit: u32, byte: u8) -> bool {
    unit < 0x8000_0000 && unit % 0x100 == byte
}

/// The child of a unit under a byte.
pub open spec fn child_of(table: Seq<u8>, at: u32, byte: u8) -> Option<u32> {
    let child = child_base(table, at) ^ (byte as u32);
    if child < unit_count(table) && is_labelled(unit_at(table, child), byte) {
        Some(child)
    } else {
        None
    }
}

/// A key ends at the unit: bit eight is set, and there is a unit for its value.
pub open spec fn ends_key(table: Seq<u8>, at: u32) -> bool {
    unit_at(table, at) / 0x100 % 2 == 1 && child_base(table, at) < unit_count(table)
}

/// The longest key that stands at the front of bytes, where `at` is the unit
/// that the first `upto` of them lead to: its length and the unit at which it
/// ends. The longest key among those bytes is `found`.
pub open spec fn longest_key(
    table: Seq<u8>,
    text: Seq<u8>,
    at: u32,
    upto: int,
    found: Option<(int, u32)>,
) -> Option<(int, u32)>
    decreases text.len() - upto,
{
    if upto >= text.len() {
        found
    } else {
        match child_of(table, at, text[upto]) {
            None => found,
            Some(child) => longest_key(
                table,
                text,
                child,
                upto + 1,
                if ends_key(table, child) {
                    Some((upto + 1, child))
                } else {
                    found
                },
            ),
        }
    }
}

/// Where the replacement of the key that ends at a unit stands, among the
/// replacements.
pub open spec fn replacement_at(table: Seq<u8>, at: u32) -> u32 {
    unit_at(table, child_base(table, at)) % 0x8000_0000
}

/// Number of bytes that the rule at the front of a text replaces: those of the
/// longest key, where its replacement stands in the table.
pub open spec fn rule_width(table: Seq<u8>, text: Seq<u8>) -> Option<int> {
    if unit_count(table) == 0 {
        None
    } else {
        match longest_key(table, text, 0, 0, None) {
            Some((width, at)) if 4 + le32(table, 0) + replacement_at(table, at) < table.len() => {
                Some(width)
            },
            _ => None,
        }
    }
}

/// Bytes stand in a text at a position.
pub open spec fn stands_at(text: Seq<u8>, at: int, part: Seq<u8>) -> bool {
    0 <= at && at + part.len() <= text.len() && text.subrange(at, at + part.len()) == part
}

/// Length of the longest symbol that stands in a text at a position.
pub open spec fn longest_symbol(symbols: Seq<Seq<u8>>, text: Seq<u8>, at: int) -> nat
    decreases symbols.len(),
{
    if symbols.len() == 0 {
        0
    } else {
        let length = longest_symbol(symbols.drop_last(), text, at);
        if stands_at(text, at, symbols.last()) && symbols.last().len() > length {
            symbols.last().len()
        } else {
            length
        }
    }
}

/// Number of bytes of the character that begins with a byte.
pub open spec fn character_width(byte: u8) -> int {
    if byte < 0x80 {
        1
    } else if byte < 0xe0 {
        2
    } else if byte < 0xf0 {
        3
    } else {
        4
    }
}

/// The byte does not begin a character.
pub open spec fn is_inside(byte: u8) -> bool {
    0x80 <= byte < 0xc0
}

/// The position behind a position of a text.
pub open spec fn next_position(
    table: Seq<u8>,
    symbols: Seq<Seq<u8>>,
    text: Seq<u8>,
    at: int,
) -> int {
    let symbol = longest_symbol(symbols, text, at);
    if symbol > 0 {
        at + symbol
    } else {
        match rule_width(table, text.skip(at)) {
            Some(width) => at + width,
            None => at + character_width(text[at]),
        }
    }
}

/// Going through a text from a position on leads inside a character.
pub open spec fn tears(
    table: Seq<u8>,
    symbols: Seq<Seq<u8>>,
    text: Seq<u8>,
    at: int,
) -> bool
    decreases text.len() - at,
{
    if at >= text.len() {
        false
    } else if is_inside(text[at]) {
        true
    } else {
        let next = next_position(table, symbols, text, at);
        at < next < text.len() && tears(table, symbols, text, next)
    }
}

/// Reads a unit.
fn read_unit(table: &[u8], at: u32) -> (unit: u32)
    requires
        at < unit_count(table@),
    ensures
        unit == unit_at(table@, at),
{
    assert(table.len() == table@.len());
    word32(table, 4 + 4 * (at as usize))
}

/// Finds where the children of a unit begin.
fn find_children(at: u32, unit: u32) -> (base: u32)
    ensures
        base == at ^ unit_offset(unit),
{
    let offset: u32 = if unit / 0x200 % 2 == 1 {
        unit / 0x400 * 0x100
    } else {
        unit / 0x400
    };
    at ^ offset
}

/// Counts the units of a table's trie.
fn count_units(table: &[u8]) -> (count: usize)
    ensures
        count == unit_count(table@),
{
    assert(table.len() == table@.len());
    if table.len() < 4 {
        return 0;
    }
    let size: usize = word32(table, 0) as usize;
    if size > table.len() - 4 {
        0
    } else {
        size / 4
    }
}

proof fn keys_are_inside(
    table: Seq<u8>,
    text: Seq<u8>,
    at: u32,
    upto: int,
    found: Option<(int, u32)>,
)
    requires
        0 <= upto <= text.len(),
        found matches Some((width, unit)) ==> 0 < width <= upto && unit < unit_count(table)
            && ends_key(table, unit),
    ensures
        longest_key(table, text, at, upto, found) matches Some((width, unit)) ==> 0 < width
            <= text.len() && unit < unit_count(table) && ends_key(table, unit),
    decreases text.len() - upto,
{
    if upto < text.len() {
        if let Some(child) = child_of(table, at, text[upto]) {
            keys_are_inside(
                table,
                text,
                child,
                upto + 1,
                if ends_key(table, child) {
                    Some((upto + 1, child))
                } else {
                    found
                },
            );
        }
    }
}

/// Measures what the rule at a position of a text replaces.
fn measure_rule(table: &[u8], text: &[u8], start: usize) -> (width: Option<usize>)
    requires
        start <= text@.len(),
    ensures
        match width {
            Some(width) => {
                &&& rule_width(table@, text@.skip(start as int)) == Some(width as int)
                &&& 0 < width <= text@.len() - start
            },
            None => rule_width(table@, text@.skip(start as int)) is None,
        },
{
    assert(table.len() == table@.len());
    assert(text.len() == text@.len());
    let count: usize = count_units(table);
    if count == 0 {
        return None;
    }
    let ghost rest = text@.skip(start as int);
    let ghost expected = longest_key(table@, rest, 0, 0, None);
    let mut unit: u32 = 0;
    let mut upto: usize = 0;
    let mut found: Option<(usize, u32)> = None;
    proof {
        keys_are_inside(table@, rest, 0, 0, None);
    }
    while upto < text.len() - start
        invariant_except_break
            expected == longest_key(
                table@,
                rest,
                unit,
                upto as int,
                match found {
                    Some((width, at)) => Some((width as int, at)),
                    None => None,
                },
            ),
        invariant
            table.len() == table@.len(),
            text.len() == text@.len(),
            start <= text@.len(),
            upto <= text@.len() - start,
            rest == text@.skip(start as int),
            count == unit_count(table@),
            unit < count,
        ensures
            expected == match found {
                Some((width, at)) => Some((width as int, at)),
                None => None,
            },
        decreases text@.len() - start - upto,
    {
        let byte: u8 = text[start + upto];
        let child: u32 = find_children(unit, read_unit(table, unit)) ^ (byte as u32);
        if child as usize >= count {
            break;
        }
        let reached: u32 = read_unit(table, child);
        if reached >= 0x8000_0000 || reached % 0x100 != byte as u32 {
            break;
        }
        upto = upto + 1;
        if reached / 0x100 % 2 == 1 && (find_children(child, reached) as usize) < count {
            found = Some((upto, child));
        }
        unit = child;
    }
    match found {
        None => None,
        Some((width, at)) => {
            let value: u32 = read_unit(table, find_children(at, read_unit(table, at)))
                % 0x8000_0000;
            let behind: usize = table.len() - 4 - word32(table, 0) as usize;
            if (value as usize) < behind {
                Some(width)
            } else {
                None
            }
        },
    }
}

/// Tells whether bytes stand in a text at a position.
pub fn check_part(text: &[u8], at: usize, part: &[u8]) -> (answer: bool)
    ensures
        answer == stands_at(text@, at as int, part@),
{
    assert(text.len() == text@.len());
    if at > text.len() || part.len() > text.len() - at {
        return false;
    }
    same_bytes(vstd::slice::slice_subrange(text, at, at + part.len()), part)
}

/// Byte strings as sequences.
pub open spec fn parts_of(parts: Seq<Vec<u8>>) -> Seq<Seq<u8>> {
    parts.map_values(|part: Vec<u8>| part@)
}

/// Measures the longest symbol that stands in a text at a position.
fn measure_symbol(symbols: &Vec<Vec<u8>>, text: &[u8], at: usize) -> (length: usize)
    requires
        at <= text@.len(),
    ensures
        length == longest_symbol(parts_of(symbols@), text@, at as int),
        length <= text@.len() - at,
{
    let mut length: usize = 0;
    let mut index: usize = 0;
    proof {
        assert(parts_of(symbols@).take(0) == Seq::<Seq<u8>>::empty());
    }
    while index < symbols.len()
        invariant
            at <= text@.len(),
            index <= symbols@.len(),
            length <= text@.len() - at,
            length == longest_symbol(parts_of(symbols@).take(index as int), text@, at as int),
        decreases symbols@.len() - index,
    {
        proof {
            let longer = parts_of(symbols@).take(index + 1);
            assert(longer.drop_last() == parts_of(symbols@).take(index as int));
            assert(longer.last() == symbols@[index as int]@);
        }
        if check_part(text, at, symbols[index].as_slice()) && symbols[index].len() > length {
            length = symbols[index].len();
        }
        index = index + 1;
    }
    proof {
        assert(parts_of(symbols@).take(index as int) == parts_of(symbols@));
    }
    length
}

/// Measures the character that begins with a byte.
fn measure_character(byte: u8) -> (width: usize)
    ensures
        width == character_width(byte),
{
    if byte < 0x80 {
        1
    } else if byte < 0xe0 {
        2
    } else if byte < 0xf0 {
        3
    } else {
        4
    }
}

/// Tells whether going through a text leads inside a character.
pub fn check_text(table: &[u8], symbols: &Vec<Vec<u8>>, text: &[u8]) -> (torn: bool)
    ensures
        torn == tears(table@, parts_of(symbols@), text@, 0),
{
    let mut at: usize = 0;
    assert(text.len() == text@.len());
    while at < text.len()
        invariant
            text.len() == text@.len(),
            at <= text@.len(),
            tears(table@, parts_of(symbols@), text@, 0) == tears(
                table@,
                parts_of(symbols@),
                text@,
                at as int,
            ),
        decreases text@.len() - at,
    {
        let byte: u8 = text[at];
        if byte >= 0x80 && byte < 0xc0 {
            return true;
        }
        let symbol: usize = measure_symbol(symbols, text, at);
        if symbol > 0 {
            at = at + symbol;
        } else {
            match measure_rule(table, text, at) {
                Some(width) => {
                    at = at + width;
                },
                None => {
                    let width: usize = measure_character(byte);
                    if width >= text.len() - at {
                        return false;
                    }
                    at = at + width;
                },
            }
        }
    }
    false
}

/// Bytes stand somewhere in a text.
pub open spec fn occurs_in(text: Seq<u8>, part: Seq<u8>) -> bool {
    exists|at: int| #[trigger] stands_at(text, at, part)
}

/// Tells whether bytes stand somewhere in a text.
pub fn find_part(text: &[u8], part: &[u8]) -> (found: bool)
    ensures
        found == occurs_in(text@, part@),
{
    let mut at: usize = 0;
    assert(text.len() == text@.len());
    while at <= text.len()
        invariant
            text.len() == text@.len(),
            at <= text@.len() + 1,
            forall|before: int| before < at ==> !#[trigger] stands_at(text@, before, part@),
        decreases text@.len() + 1 - at,
    {
        if check_part(text, at, part) {
            return true;
        }
        if at == text.len() {
            return false;
        }
        at = at + 1;
    }
    false
}

/// Bytes are the beginning or the end of longer ones.
pub open spec fn is_edge(part: Seq<u8>, whole: Seq<u8>) -> bool {
    &&& part.len() < whole.len()
    &&& stands_at(whole, 0, part) || stands_at(whole, whole.len() - part.len(), part)
}

/// Bytes are more than one character.
pub open spec fn has_characters(part: Seq<u8>) -> bool {
    part.len() > 0 && part.len() > character_width(part[0])
}

/// Among the pieces there is one that stands somewhere in a text and that begins
/// or ends with another one of more than one character.
pub open spec fn tangles(pieces: Seq<Seq<u8>>, text: Seq<u8>) -> bool {
    exists|outer: int, inner: int|
        {
            &&& 0 <= outer < pieces.len()
            &&& 0 <= inner < pieces.len()
            &&& occurs_in(text, pieces[outer])
            &&& has_characters(pieces[inner])
            &&& #[trigger] is_edge(pieces[inner], pieces[outer])
        }
}

/// Tells whether bytes are the beginning or the end of longer ones.
fn check_edge(part: &[u8], whole: &[u8]) -> (answer: bool)
    ensures
        answer == is_edge(part@, whole@),
{
    part.len() < whole.len() && (check_part(whole, 0, part) || check_part(
        whole,
        whole.len() - part.len(),
        part,
    ))
}

/// Tells whether bytes are more than one character.
fn check_characters(part: &[u8]) -> (answer: bool)
    ensures
        answer == has_characters(part@),
{
    part.len() > 0 && part.len() > measure_character(part[0])
}

/// Tells whether among the pieces there is one that stands somewhere in a text
/// and that begins or ends with another one of more than one character.
pub fn check_tangles(pieces: &Vec<Vec<u8>>, text: &[u8]) -> (tangled: bool)
    ensures
        tangled == tangles(parts_of(pieces@), text@),
{
    let ghost all = parts_of(pieces@);
    let mut outer: usize = 0;
    while outer < pieces.len()
        invariant
            all == parts_of(pieces@),
            outer <= pieces@.len(),
            forall|whole: int, part: int|
                0 <= whole < outer && 0 <= part < all.len() && occurs_in(text@, all[whole])
                    && has_characters(all[part]) ==> !#[trigger] is_edge(all[part], all[whole]),
        decreases pieces@.len() - outer,
    {
        if find_part(text, pieces[outer].as_slice()) {
            let mut inner: usize = 0;
            while inner < pieces.len()
                invariant
                    all == parts_of(pieces@),
                    outer < pieces@.len(),
                    inner <= pieces@.len(),
                    occurs_in(text@, all[outer as int]),
                    forall|part: int|
                        0 <= part < inner && has_characters(all[part]) ==> !#[trigger] is_edge(
                            all[part],
                            all[outer as int],
                        ),
                decreases pieces@.len() - inner,
            {
                if check_characters(pieces[inner].as_slice()) && check_edge(
                    pieces[inner].as_slice(),
                    pieces[outer].as_slice(),
                ) {
                    proof {
                        assert(all[inner as int] == pieces@[inner as int]@);
                        assert(all[outer as int] == pieces@[outer as int]@);
                        assert(is_edge(all[inner as int], all[outer as int]));
                    }
                    return true;
                }
                inner = inner + 1;
            }
        }
        outer = outer + 1;
    }
    false
}

/// A position is behind a text or begins a character.
pub open spec fn is_boundary(text: Seq<u8>, at: int) -> bool {
    at >= text.len() || !(0x80 <= text[at] < 0xc0)
}

proof fn longest_symbol_stands(symbols: Seq<Seq<u8>>, text: Seq<u8>, at: int)
    ensures
        longest_symbol(symbols, text, at) > 0 ==> exists|k: int|
            0 <= k < symbols.len() && (#[trigger] symbols[k]).len() == longest_symbol(
                symbols,
                text,
                at,
            ) && stands_at(text, at, symbols[k]),
    decreases symbols.len(),
{
    if symbols.len() > 0 {
        let fewer = symbols.drop_last();
        longest_symbol_stands(fewer, text, at);
        let length = longest_symbol(fewer, text, at);
        if stands_at(text, at, symbols.last()) && symbols.last().len() > length {
            assert(symbols[symbols.len() - 1] == symbols.last());
        } else if length > 0 {
            let k = choose|k: int|
                0 <= k < fewer.len() && (#[trigger] fewer[k]).len() == longest_symbol(
                    fewer,
                    text,
                    at,
                ) && stands_at(text, at, fewer[k]);
            assert(symbols[k] == fewer[k]);
        }
    }
}

/// A text is not torn where its characters, the symbols that stand in it and
/// the parts that rules replace all end in front of a character or behind the
/// text.
pub proof fn whole_characters_are_not_torn(
    table: Seq<u8>,
    symbols: Seq<Seq<u8>>,
    text: Seq<u8>,
    at: int,
)
    requires
        0 <= at,
        is_boundary(text, at),
        forall|from: int|
            0 <= from < text.len() && !(0x80 <= #[trigger] text[from] < 0xc0) ==> is_boundary(
                text,
                from + if text[from] < 0x80 {
                    1int
                } else if text[from] < 0xe0 {
                    2
                } else if text[from] < 0xf0 {
                    3
                } else {
                    4
                },
            ),
        forall|from: int, k: int|
            #![trigger text[from], symbols[k]]
            0 <= from < text.len() && 0 <= k < symbols.len() && !(0x80 <= text[from] < 0xc0) && from
                + symbols[k].len() <= text.len() && text.subrange(from, from + symbols[k].len())
                == symbols[k] ==> is_boundary(text, from + symbols[k].len()),
        forall|from: int|
            0 <= from < text.len() && !(0x80 <= #[trigger] text[from] < 0xc0) ==> (rule_width(
                table,
                text.skip(from),
            ) matches Some(width) ==> is_boundary(text, from + width)),
    ensures
        !tears(table, symbols, text, at),
    decreases text.len() - at,
{
    if at < text.len() {
        let next = next_position(table, symbols, text, at);
        let symbol = longest_symbol(symbols, text, at);
        longest_symbol_stands(symbols, text, at);
        if symbol > 0 {
            let k = choose|k: int|
                0 <= k < symbols.len() && (#[trigger] symbols[k]).len() == longest_symbol(
                    symbols,
                    text,
                    at,
                ) && stands_at(text, at, symbols[k]);
            assert(!(0x80 <= text[at] < 0xc0));
            assert(is_boundary(text, at + symbols[k].len()));
        }
        assert(is_boundary(text, next));
        if at < next < text.len() {
            whole_characters_are_not_torn(table, symbols, text, next);
        }
    }
}

/// Pieces that do not stand in a text do not tangle in it, and neither does a
/// piece alone or pieces of one byte.
pub proof fn few_pieces_do_not_tangle(pieces: Seq<Seq<u8>>, text: Seq<u8>)
    requires
        pieces.len() <= 1 || (forall|k: int, at: int|
            #![trigger pieces[k], text.subrange(at, at + pieces[k].len())]
            0 <= k < pieces.len() && 0 <= at && at + pieces[k].len() <= text.len()
                ==> text.subrange(at, at + pieces[k].len()) != pieces[k]) || (forall|k: int|
            0 <= k < pieces.len() ==> (#[trigger] pieces[k]).len() <= 1),
    ensures
        !tangles(pieces, text),
{
    if tangles(pieces, text) {
        let (outer, inner) = choose|outer: int, inner: int|
            {
                &&& 0 <= outer < pieces.len()
                &&& 0 <= inner < pieces.len()
                &&& occurs_in(text, pieces[outer])
                &&& has_characters(pieces[inner])
                &&& #[trigger] is_edge(pieces[inner], pieces[outer])
            };
        let at = choose|at: int| #[trigger] stands_at(text, at, pieces[outer]);
        assert(text.subrange(at, at + pieces[outer].len()) == pieces[outer]);
        assert(pieces[inner].len() > 1);
    }
}

/// Parts are listed one for one, in order.
pub proof fn parts_are_listed_in_order(parts: Seq<Vec<u8>>)
    ensures
        parts_of(parts).len() == parts.len(),
        forall|k: int| 0 <= k < parts.len() ==> #[trigger] parts_of(parts)[k] == parts[k]@,
{
}

} // verus!
