//! The run-length codec: flat text over a palette, written as symbols of the
//! code table and read back.

use vstd::prelude::*;
use crate::lookup::{last_position, lemma_last_position, positions_of, Positions};
use crate::table::{
    code_chars, code_table, lemma_symbol_position, symbol_position, symbol_positions, CODE_COUNT,
};
use crate::text::{chars_of, string_of, string_of_range};

verus! {

/// Why a palette cannot be used.
#[derive(Clone, Copy, Debug, PartialEq, Eq, Structural)]
pub enum PaletteError {
    /// The palette has no character.
    Empty,
    /// The palette has more characters than the code table has symbols.
    TooLarge,
}

impl PaletteError {
    /// A sentence that says what is wrong with the palette.
    pub fn message(&self) -> (text: &'static str)
        ensures
            text@ == match *self {
                PaletteError::Empty => "the palette is empty"@,
                PaletteError::TooLarge => "the palette has more characters than the code table"@,
            },
    {
        match self {
            PaletteError::Empty => "the palette is empty",
            PaletteError::TooLarge => "the palette has more characters than the code table",
        }
    }
}

/// The palette position that stands for `c`: the last position that holds
/// `c`, and position 0 for a character that the palette lacks.
pub open spec fn palette_index(palette: Seq<char>, c: char) -> int {
    match last_position(palette, c) {
        Some(i) => i,
        None => 0,
    }
}

/// The longest run that one pair of symbols can carry under a palette of
/// `n` characters: one more than the number of run-length symbols.
pub open spec fn max_run(n: int) -> int {
    CODE_COUNT - n + 1
}

/// Whether the first `n` characters of `text` are the run that starts it:
/// all equal, at most `cap` of them, and either `cap` long or ended by the
/// end of the text or by another character.
pub open spec fn is_run(text: Seq<char>, cap: int, n: int) -> bool {
    &&& 1 <= n <= text.len()
    &&& n <= cap
    &&& forall|i: int| 0 <= i < n ==> #[trigger] text[i] == text[0]
    &&& (n == cap || n == text.len() || text[n] != text[0])
}

/// Length of the run that starts `text`, cut off at `cap`.
pub open spec fn run_len(text: Seq<char>, cap: int) -> int
    decreases text.len(),
{
    if text.len() == 0 {
        0
    } else if text.len() >= 2 && text[1] == text[0] && cap >= 2 {
        1 + run_len(text.skip(1), cap - 1)
    } else {
        1
    }
}

/// `run_len` is a run.
pub proof fn lemma_run_len_is_run(text: Seq<char>, cap: int)
    requires
        text.len() > 0,
        cap >= 1,
    ensures
        is_run(text, cap, run_len(text, cap)),
    decreases text.len(),
{
    if text.len() >= 2 && text[1] == text[0] && cap >= 2 {
        let rest = text.skip(1);
        lemma_run_len_is_run(rest, cap - 1);
        let m = run_len(rest, cap - 1);
        assert forall|i: int| 0 <= i < m + 1 implies #[trigger] text[i] == text[0] by {
            if i > 0 {
                assert(rest[i - 1] == rest[0]);
            }
        }
        if m + 1 != cap && m + 1 != text.len() {
            assert(rest[m] != rest[0]);
        }
    }
}

/// There is only one run at the start of a text.
pub proof fn lemma_run_unique(text: Seq<char>, cap: int, n: int)
    requires
        is_run(text, cap, n),
    ensures
        n == run_len(text, cap),
    decreases text.len(),
{
    if text.len() >= 2 && text[1] == text[0] && cap >= 2 {
        let rest = text.skip(1);
        assert(n >= 2);
        assert forall|i: int| 0 <= i < n - 1 implies #[trigger] rest[i] == rest[0] by {
            assert(text[i + 1] == text[0]);
        }
        if n - 1 != cap - 1 && n - 1 != rest.len() {
            assert(rest[n - 1] == text[n]);
        }
        lemma_run_unique(rest, cap - 1, n - 1);
    } else {
        if n >= 2 {
            assert(text[1] == text[0]);
        }
    }
}

/// The symbols written for a run of `n` characters `c`: the symbol at the
/// palette position of `c`, followed for `n >= 2` by the run-length symbol
/// number `n - 2`.
pub open spec fn run_symbols(c: char, n: int, palette: Seq<char>) -> Seq<char> {
    let head = code_table()[palette_index(palette, c)];
    if n >= 2 {
        seq![head, code_table()[palette.len() + n - 2]]
    } else {
        seq![head]
    }
}

/// The compact form of `text` under `palette`: run after run from the
/// left, each run as long as `max_run` allows.
pub open spec fn encode_spec(text: Seq<char>, palette: Seq<char>) -> Seq<char>
    decreases text.len(),
    via encode_spec_decreases
{
    if text.len() == 0 {
        Seq::empty()
    } else {
        let n = run_len(text, max_run(palette.len() as int));
        run_symbols(text[0], n, palette) + encode_spec(text.skip(n), palette)
    }
}

#[via_fn]
proof fn encode_spec_decreases(text: Seq<char>, palette: Seq<char>) {
    if text.len() > 0 {
        lemma_run_len_bounds(text, max_run(palette.len() as int));
    }
}

/// A run in a text that is not empty has at least one character and does
/// not leave the text.
pub proof fn lemma_run_len_bounds(text: Seq<char>, cap: int)
    requires
        text.len() > 0,
    ensures
        1 <= run_len(text, cap) <= text.len(),
    decreases text.len(),
{
    if text.len() >= 2 && text[1] == text[0] && cap >= 2 {
        lemma_run_len_bounds(text.skip(1), cap - 1);
    }
}

/// The palette position of a character lies inside a palette that is not
/// empty, and a character of the palette stands at its own position.
pub proof fn lemma_palette_index(palette: Seq<char>, c: char)
    requires
        palette.len() > 0,
    ensures
        0 <= palette_index(palette, c) < palette.len(),
        palette.contains(c) ==> palette[palette_index(palette, c)] == c,
{
    lemma_last_position(palette, c);
}

/// Finds the palette position that stands for `c` in the table of a
/// palette.
pub fn find_color(colors: &Positions, c: char) -> (k: usize)
    ensures
        k == if colors@.contains_key(c) {
            colors@[c]
        } else {
            0
        },
{
    match colors.get(c) {
        Some(i) => i,
        None => 0,
    }
}

/// Writes `text` in compact form.
///
/// A palette with more characters than the code table has symbols is
/// refused, and so is an empty palette for a text that is not empty.
pub fn encode(text: &[char], palette: &[char]) -> (r: Result<Vec<char>, PaletteError>)
    ensures
        match r {
            Ok(symbols) => palette@.len() <= CODE_COUNT && (palette@.len() > 0 || text@.len() == 0)
                && symbols@ == encode_spec(text@, palette@),
            Err(PaletteError::TooLarge) => palette@.len() > CODE_COUNT,
            Err(PaletteError::Empty) => palette@.len() == 0 && text@.len() > 0,
        },
{
    let n: usize = palette.len();
    if n > CODE_COUNT {
        return Err(PaletteError::TooLarge);
    }
    if text.len() == 0 {
        return Ok(Vec::new());
    }
    if n == 0 {
        return Err(PaletteError::Empty);
    }
    let table = code_chars();
    let colors = Positions::new(palette);
    let cap: usize = CODE_COUNT - n + 1;
    let mut symbols: Vec<char> = Vec::new();
    let mut start: usize = 0;
    assert(text@.skip(0) =~= text@);
    while start < text.len()
        invariant
            start <= text.len(),
            n == palette.len(),
            1 <= n <= CODE_COUNT,
            cap == max_run(n as int),
            table@ == code_table(),
            table@.len() == CODE_COUNT,
            colors@ == positions_of(palette@),
            symbols@ + encode_spec(text@.skip(start as int), palette@) == encode_spec(
                text@,
                palette@,
            ),
        decreases text.len() - start,
    {
        let mut end: usize = start + 1;
        while end < text.len() && text[end] == text[start] && end - start < cap
            invariant
                start < end <= text.len(),
                end - start <= cap,
                forall|i: int| start <= i < end ==> #[trigger] text@[i] == text@[start as int],
            decreases text.len() - end,
        {
            end += 1;
        }
        let color = find_color(&colors, text[start]);
        proof {
            let rest = text@.skip(start as int);
            assert forall|i: int| 0 <= i < end - start implies #[trigger] rest[i] == rest[0] by {
                assert(rest[i] == text@[start + i]);
            }
            assert(is_run(rest, cap as int, end - start));
            lemma_run_unique(rest, cap as int, end - start);
            lemma_palette_index(palette@, text@[start as int]);
            assert(rest.skip(end - start) =~= text@.skip(end as int));
        }
        let ghost before = symbols@;
        symbols.push(table[color]);
        if end > start + 1 {
            symbols.push(table[n + (end - start - 2)]);
        }
        proof {
            let rest = text@.skip(start as int);
            assert(symbols@ =~= before + run_symbols(rest[0], end - start, palette@));
            assert(symbols@ + encode_spec(text@.skip(end as int), palette@) =~= before + (
            run_symbols(rest[0], end - start, palette@) + encode_spec(
                text@.skip(end as int),
                palette@,
            )));
        }
        start = end;
    }
    assert(text@.skip(start as int) =~= Seq::<char>::empty());
    assert(symbols@ + Seq::<char>::empty() =~= symbols@);
    Ok(symbols)
}

/// The palette position that symbol `c` names under a palette of `n`
/// characters: its place in the code table where that is below `n`, and
/// position 0 for every other character.
pub open spec fn symbol_index(c: char, n: int) -> int {
    match symbol_position(c) {
        Some(p) => if p < n { p } else { 0 },
        None => 0,
    }
}

/// The number of further copies that symbol `c` asks for under a palette of
/// `n` characters, where `c` is a run-length symbol: the run-length symbol
/// number `j` asks for `j + 1` of them.
pub open spec fn symbol_extra(c: char, n: int) -> Option<int> {
    match symbol_position(c) {
        Some(p) => if p >= n { Some(p - n + 1) } else { None },
        None => None,
    }
}

/// `n` copies of `c`.
pub open spec fn repeat(c: char, n: int) -> Seq<char> {
    Seq::new(n as nat, |i: int| c)
}

/// The flat text that `data` stands for under `palette`: each character
/// of `data` opens a run of the palette character it names, and a
/// run-length symbol right behind it lengthens that run and is used up.
pub open spec fn decode_spec(data: Seq<char>, palette: Seq<char>) -> Seq<char>
    decreases data.len(),
{
    if data.len() == 0 {
        Seq::empty()
    } else {
        let n = palette.len() as int;
        let color = palette[symbol_index(data[0], n)];
        if data.len() >= 2 && symbol_extra(data[1], n) is Some {
            repeat(color, 1 + symbol_extra(data[1], n)->0) + decode_spec(data.skip(2), palette)
        } else {
            seq![color] + decode_spec(data.skip(1), palette)
        }
    }
}

/// Where the reader of compact text stands between two symbols.
#[derive(Clone, Copy, Debug, PartialEq, Eq, Structural)]
pub enum DecodeState {
    /// The next symbol opens a run.
    ExpectIndexSymbol,
    /// A run of this character is open; a run-length symbol may follow.
    HaveCharAwaitingOptionalValue(char),
}

/// What the reader does on one symbol, or at the end of the data.
#[derive(Clone, Copy, Debug, PartialEq, Eq, Structural)]
pub struct Step {
    /// The state after the step.
    pub next: DecodeState,
    /// Whether the symbol was used up.
    pub consumed: bool,
    /// How many copies of the open run's character go to the output.
    pub emit: usize,
}

/// The reader's step from `state` on `input`, the symbol that comes next,
/// or `None` at the end of the data.
///
/// Expecting a run, it uses the symbol up and opens the run of the palette
/// character that the symbol names. With a run open, a run-length symbol is
/// used up and the run goes out at its full length; on anything else the
/// run goes out as a single character and the symbol is left for the next
/// step.
pub open spec fn step_spec(state: DecodeState, input: Option<char>, palette: Seq<char>) -> Step {
    let n = palette.len() as int;
    match state {
        DecodeState::ExpectIndexSymbol => match input {
            Some(c) => Step {
                next: DecodeState::HaveCharAwaitingOptionalValue(palette[symbol_index(c, n)]),
                consumed: true,
                emit: 0,
            },
            None => Step { next: DecodeState::ExpectIndexSymbol, consumed: false, emit: 0 },
        },
        DecodeState::HaveCharAwaitingOptionalValue(_) => {
            if input is Some && symbol_extra(input->0, n) is Some {
                Step {
                    next: DecodeState::ExpectIndexSymbol,
                    consumed: true,
                    emit: (1 + symbol_extra(input->0, n)->0) as usize,
                }
            } else {
                Step { next: DecodeState::ExpectIndexSymbol, consumed: false, emit: 1 }
            }
        },
    }
}

/// Takes one step of the reader.
pub fn step(state: DecodeState, input: Option<char>, palette: &[char], symbols: &Positions) -> (r:
    Step)
    requires
        palette@.len() >= 1,
        symbols@ == positions_of(code_table()),
    ensures
        r == step_spec(state, input, palette@),
{
    let n: usize = palette.len();
    proof {
        if input is Some {
            lemma_symbol_position(input->0);
        }
    }
    match state {
        DecodeState::ExpectIndexSymbol => match input {
            Some(c) => {
                let index: usize = match symbols.get(c) {
                    Some(p) => if p < n { p } else { 0 },
                    None => 0,
                };
                Step {
                    next: DecodeState::HaveCharAwaitingOptionalValue(palette[index]),
                    consumed: true,
                    emit: 0,
                }
            },
            None => Step { next: DecodeState::ExpectIndexSymbol, consumed: false, emit: 0 },
        },
        DecodeState::HaveCharAwaitingOptionalValue(_) => {
            let extra: usize = match input {
                Some(c) => match symbols.get(c) {
                    Some(p) => if p >= n { p - n + 1 } else { 0 },
                    None => 0,
                },
                None => 0,
            };
            if extra > 0 {
                Step { next: DecodeState::ExpectIndexSymbol, consumed: true, emit: 1 + extra }
            } else {
                Step { next: DecodeState::ExpectIndexSymbol, consumed: false, emit: 1 }
            }
        },
    }
}

/// Reads compact `data` back into flat text, step by step from
/// `DecodeState::ExpectIndexSymbol` until no symbol is left and no run is
/// open.
///
/// An empty palette is refused for data that is not empty.
pub fn decode(data: &[char], palette: &[char]) -> (r: Result<Vec<char>, PaletteError>)
    ensures
        match r {
            Ok(flat) => (palette@.len() > 0 || data@.len() == 0) && flat@ == decode_spec(
                data@,
                palette@,
            ),
            Err(e) => e == PaletteError::Empty && palette@.len() == 0 && data@.len() > 0,
        },
{
    if data.len() == 0 {
        return Ok(Vec::new());
    }
    if palette.len() == 0 {
        return Err(PaletteError::Empty);
    }
    let symbols = symbol_positions();
    let mut flat: Vec<char> = Vec::new();
    let mut pos: usize = 0;
    let mut state = DecodeState::ExpectIndexSymbol;
    assert(data@.skip(0) =~= data@);
    while pos < data.len() || state != DecodeState::ExpectIndexSymbol
        invariant
            pos <= data.len(),
            palette@.len() >= 1,
            symbols@ == positions_of(code_table()),
            match state {
                DecodeState::ExpectIndexSymbol => flat@ + decode_spec(
                    data@.skip(pos as int),
                    palette@,
                ) == decode_spec(data@, palette@),
                DecodeState::HaveCharAwaitingOptionalValue(color) => pos >= 1 && color
                    == palette@[symbol_index(data@[pos - 1], palette@.len() as int)] && flat@
                    + decode_spec(data@.skip(pos - 1), palette@) == decode_spec(data@, palette@),
            },
        decreases 2 * (data.len() - pos) + if state == DecodeState::ExpectIndexSymbol {
            0int
        } else {
            1int
        },
    {
        let input: Option<char> = if pos < data.len() {
            Some(data[pos])
        } else {
            None
        };
        let taken = step(state, input, palette, &symbols);
        let ghost before = flat@;
        if let DecodeState::HaveCharAwaitingOptionalValue(color) = state {
            let ghost rest = data@.skip(pos - 1);
            let mut done: usize = 0;
            while done < taken.emit
                invariant
                    done <= taken.emit,
                    flat@ == before + repeat(color, done as int),
                decreases taken.emit - done,
            {
                flat.push(color);
                done += 1;
                assert(flat@ =~= before + repeat(color, done as int));
            }
            proof {
                assert(rest[0] == data@[pos - 1]);
                if pos < data.len() {
                    assert(rest[1] == data@[pos as int]);
                    lemma_symbol_position(rest[1]);
                }
                let used: int = if taken.consumed { 2 } else { 1 };
                assert(rest.skip(used) =~= data@.skip(pos - 1 + used));
                assert(repeat(color, 1) =~= seq![color]);
                assert(flat@ + decode_spec(data@.skip(pos - 1 + used), palette@) =~= before + (
                repeat(color, taken.emit as int) + decode_spec(
                    data@.skip(pos - 1 + used),
                    palette@,
                )));
            }
        }
        if taken.consumed {
            pos += 1;
        }
        state = taken.next;
    }
    assert(data@.skip(pos as int) =~= Seq::<char>::empty());
    assert(flat@ + Seq::<char>::empty() =~= flat@);
    Ok(flat)
}

/// `text` without its line breaks: every line feed is dropped, and with
/// it a carriage return that stands right before it.
pub open spec fn flatten_spec(text: Seq<char>) -> Seq<char>
    decreases text.len(),
{
    if text.len() == 0 {
        Seq::empty()
    } else if text[0] == '\n' {
        flatten_spec(text.skip(1))
    } else if text[0] == '\r' && text.len() >= 2 && text[1] == '\n' {
        flatten_spec(text.skip(2))
    } else {
        seq![text[0]] + flatten_spec(text.skip(1))
    }
}

/// Joins the lines of `text` into one flat text.
pub fn flatten(text: &[char]) -> (flat: Vec<char>)
    ensures
        flat@ == flatten_spec(text@),
{
    let mut flat: Vec<char> = Vec::new();
    let mut pos: usize = 0;
    assert(text@.skip(0) =~= text@);
    while pos < text.len()
        invariant
            pos <= text.len(),
            flat@ + flatten_spec(text@.skip(pos as int)) == flatten_spec(text@),
        decreases text.len() - pos,
    {
        let ghost before = flat@;
        let ghost rest = text@.skip(pos as int);
        let c = text[pos];
        let mut used: usize = 1;
        if c == '\n' {
        } else if c == '\r' && pos + 1 < text.len() && text[pos + 1] == '\n' {
            used = 2;
        } else {
            flat.push(c);
        }
        proof {
            assert(rest[0] == c);
            if rest.len() >= 2 {
                assert(rest[1] == text@[pos + 1]);
            }
            assert(rest.skip(used as int) =~= text@.skip(pos + used));
            assert(flat@ + flatten_spec(text@.skip(pos + used)) =~= before + flatten_spec(rest));
        }
        pos += used;
    }
    assert(text@.skip(pos as int) =~= Seq::<char>::empty());
    assert(flat@ + Seq::<char>::empty() =~= flat@);
    flat
}

/// `flat` cut into lines of `width` characters; the last line holds what
/// is left and may be shorter. An empty text has no line.
pub open spec fn wrap_spec(flat: Seq<char>, width: int) -> Seq<Seq<char>>
    decreases flat.len(),
{
    if flat.len() == 0 || width < 1 {
        Seq::empty()
    } else if flat.len() <= width {
        seq![flat]
    } else {
        seq![flat.take(width)] + wrap_spec(flat.skip(width), width)
    }
}

/// The contents of each of `lines`.
pub open spec fn lines_view(lines: Seq<String>) -> Seq<Seq<char>> {
    Seq::new(lines.len(), |i: int| lines[i]@)
}

/// Cuts `flat` into lines of `width` characters.
pub fn wrap(flat: &[char], width: usize) -> (lines: Vec<String>)
    requires
        width >= 1,
    ensures
        lines_view(lines@) == wrap_spec(flat@, width as int),
{
    let mut lines: Vec<String> = Vec::new();
    let mut start: usize = 0;
    assert(flat@.skip(0) =~= flat@);
    while start < flat.len()
        invariant
            start <= flat.len(),
            width >= 1,
            lines_view(lines@) + wrap_spec(flat@.skip(start as int), width as int) == wrap_spec(
                flat@,
                width as int,
            ),
        decreases flat.len() - start,
    {
        let ghost before = lines_view(lines@);
        let ghost rest = flat@.skip(start as int);
        let end: usize = if flat.len() - start <= width {
            flat.len()
        } else {
            start + width
        };
        let line = string_of_range(flat, start, end);
        lines.push(line);
        proof {
            assert(line@ =~= rest.take(end - start));
            assert(rest.take(rest.len() as int) =~= rest);
            assert(lines_view(lines@) =~= before + seq![line@]);
            assert(rest.skip(end - start) =~= flat@.skip(end as int));
            if end == flat.len() {
                assert(wrap_spec(flat@.skip(end as int), width as int) =~= Seq::empty());
            }
            assert(lines_view(lines@) + wrap_spec(flat@.skip(end as int), width as int) =~= before
                + wrap_spec(rest, width as int));
        }
        start = end;
    }
    assert(lines_view(lines@) + Seq::<Seq<char>>::empty() =~= lines_view(lines@));
    lines
}

/// Compresses rendered text: its lines are joined, and the flat text is
/// written in compact form under the palette `colors`.
///
/// A palette with more characters than the code table has symbols is
/// refused, and so is an empty palette for a text that is not empty.
pub fn compress(text: &str, colors: &str) -> (r: Result<String, PaletteError>)
    ensures
        match r {
            Ok(compact) => colors@.len() <= CODE_COUNT && (colors@.len() > 0 || flatten_spec(
                text@,
            ).len() == 0) && compact@ == encode_spec(flatten_spec(text@), colors@),
            Err(PaletteError::TooLarge) => colors@.len() > CODE_COUNT,
            Err(PaletteError::Empty) => colors@.len() == 0 && flatten_spec(text@).len() > 0,
        },
{
    let palette = chars_of(colors);
    let flat = flatten(chars_of(text).as_slice());
    match encode(flat.as_slice(), palette.as_slice()) {
        Ok(symbols) => Ok(string_of(symbols.as_slice())),
        Err(e) => Err(e),
    }
}

/// Expands compact `data` under the palette `colors` and cuts the flat
/// text into lines of `width` characters.
///
/// An empty palette is refused for data that is not empty.
pub fn decompress(data: &str, width: u32, colors: &str) -> (r: Result<Vec<String>, PaletteError>)
    requires
        width >= 1,
    ensures
        match r {
            Ok(lines) => (colors@.len() > 0 || data@.len() == 0) && lines_view(lines@) == wrap_spec(
                decode_spec(data@, colors@),
                width as int,
            ),
            Err(e) => e == PaletteError::Empty && colors@.len() == 0 && data@.len() > 0,
        },
{
    let palette = chars_of(colors);
    let symbols = chars_of(data);
    match decode(symbols.as_slice(), palette.as_slice()) {
        Ok(flat) => Ok(wrap(flat.as_slice(), width as usize)),
        Err(e) => Err(e),
    }
}

} // verus!
