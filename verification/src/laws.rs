//! What holds of the codec as a whole: reading back what was written, the
//! limit on a run, and how text is cut into lines.

use vstd::prelude::*;
use crate::codec::{
    decode_spec, encode_spec, flatten_spec, is_run, lemma_palette_index, lemma_run_len_is_run, lemma_run_unique,
    max_run, palette_index, repeat, run_len, run_symbols, symbol_extra, symbol_index, wrap_spec,
};
use crate::render::{lemma_shade_index, render_row, render_rows, shade_index, Raster};
use crate::table::{code_table, lemma_position_of_symbol, CODE_COUNT};

verus! {

/// Whether every character of `text` occurs in `palette`.
pub open spec fn over_palette(text: Seq<char>, palette: Seq<char>) -> bool {
    forall|i: int| 0 <= i < text.len() ==> palette.contains(#[trigger] text[i])
}

/// Whether `palette` can be used to write compact text: it has a character
/// and no more characters than the code table has symbols.
pub open spec fn usable(palette: Seq<char>) -> bool {
    1 <= palette.len() <= CODE_COUNT
}

/// The first pair of a compact text: it stands for the run that starts the
/// text, that run is never longer than `max_run` allows, its run-length
/// symbol is one of the code table, and what follows the run is written
/// after it, with at least one symbol where any text is left.
pub proof fn law_first_run(text: Seq<char>, palette: Seq<char>)
    requires
        usable(palette),
        text.len() > 0,
    ensures
        ({
            let n = run_len(text, max_run(palette.len() as int));
            &&& is_run(text, max_run(palette.len() as int), n)
            &&& palette.len() + n - 2 < CODE_COUNT
            &&& encode_spec(text, palette) == run_symbols(text[0], n, palette) + encode_spec(
                text.skip(n),
                palette,
            )
            &&& text.len() > n ==> encode_spec(text.skip(n), palette).len() >= 1
        }),
{
    let cap = max_run(palette.len() as int);
    lemma_run_len_is_run(text, cap);
    let n = run_len(text, cap);
    let rest = text.skip(n);
    if rest.len() > 0 {
        lemma_run_len_is_run(rest, cap);
    }
}

/// A compact text opens with a symbol that names a palette position, the
/// one of the text's first character, and never with a run-length symbol.
pub proof fn law_opens_with_position(text: Seq<char>, palette: Seq<char>)
    requires
        usable(palette),
        text.len() > 0,
    ensures
        encode_spec(text, palette).len() >= 1,
        symbol_extra(encode_spec(text, palette)[0], palette.len() as int) is None,
        symbol_index(encode_spec(text, palette)[0], palette.len() as int) == palette_index(
            palette,
            text[0],
        ),
{
    lemma_palette_index(palette, text[0]);
    lemma_position_of_symbol(palette_index(palette, text[0]));
}

/// Reading back what was written gives the text again, for every text
/// over a usable palette.
pub proof fn law_round_trip(text: Seq<char>, palette: Seq<char>)
    requires
        usable(palette),
        over_palette(text, palette),
    ensures
        decode_spec(encode_spec(text, palette), palette) == text,
    decreases text.len(),
{
    if text.len() > 0 {
        let count = palette.len() as int;
        let cap = max_run(count);
        let n = run_len(text, cap);
        lemma_run_len_is_run(text, cap);
        let rest = text.skip(n);
        assert forall|i: int| 0 <= i < rest.len() implies palette.contains(#[trigger] rest[i]) by {
            assert(rest[i] == text[i + n]);
        }
        law_round_trip(rest, palette);
        let c = text[0];
        let k = palette_index(palette, c);
        assert(palette.contains(c));
        lemma_palette_index(palette, c);
        lemma_position_of_symbol(k);
        let tail = encode_spec(rest, palette);
        let data = encode_spec(text, palette);
        assert(data == run_symbols(c, n, palette) + tail);
        assert(data[0] == code_table()[k]);
        if n >= 2 {
            lemma_position_of_symbol(count + n - 2);
            assert(data[1] == code_table()[count + n - 2]);
            assert(data.skip(2) =~= tail);
            assert(repeat(c, n) + rest =~= text);
        } else {
            if rest.len() > 0 {
                law_opens_with_position(rest, palette);
                assert(data[1] == tail[0]);
            }
            assert(data.skip(1) =~= tail);
            assert(seq![c] + rest =~= text);
        }
    }
}

/// Writing again what was read back from a compact text gives that compact
/// text again.
pub proof fn law_round_trip_compact(text: Seq<char>, palette: Seq<char>)
    requires
        usable(palette),
        over_palette(text, palette),
    ensures
        encode_spec(decode_spec(encode_spec(text, palette), palette), palette) == encode_spec(
            text,
            palette,
        ),
{
    law_round_trip(text, palette);
}

/// The run that starts a text of `len` equal characters is the whole text,
/// or `cap` characters of it where the text is longer.
pub proof fn lemma_uniform_run(c: char, len: int, cap: int)
    requires
        len >= 1,
        cap >= 1,
    ensures
        run_len(repeat(c, len), cap) == if len <= cap { len } else { cap },
        len > cap ==> repeat(c, len).skip(cap) == repeat(c, len - cap),
{
    let text = repeat(c, len);
    let n = if len <= cap { len } else { cap };
    assert(is_run(text, cap, n));
    lemma_run_unique(text, cap, n);
    if len > cap {
        assert(text.skip(cap) =~= repeat(c, len - cap));
    }
}

/// A run of exactly `max_run` equal characters is written as one pair.
pub proof fn law_run_at_limit(c: char, palette: Seq<char>)
    requires
        usable(palette),
    ensures
        encode_spec(repeat(c, max_run(palette.len() as int)), palette) == run_symbols(
            c,
            max_run(palette.len() as int),
            palette,
        ),
{
    let cap = max_run(palette.len() as int);
    let text = repeat(c, cap);
    lemma_uniform_run(c, cap, cap);
    assert(text.skip(cap) =~= Seq::<char>::empty());
    assert(encode_spec(text.skip(cap), palette) =~= Seq::<char>::empty());
    assert(run_symbols(c, cap, palette) + Seq::<char>::empty() =~= run_symbols(c, cap, palette));
}

/// More than `max_run` equal characters are never written as one pair:
/// the first pair stands for `max_run` of them, and what is left is written
/// after it, with at least one more symbol.
pub proof fn law_run_over_limit(c: char, len: int, palette: Seq<char>)
    requires
        usable(palette),
        len > max_run(palette.len() as int),
    ensures
        encode_spec(repeat(c, len), palette) == run_symbols(
            c,
            max_run(palette.len() as int),
            palette,
        ) + encode_spec(repeat(c, len - max_run(palette.len() as int)), palette),
        encode_spec(repeat(c, len - max_run(palette.len() as int)), palette).len() >= 1,
{
    let cap = max_run(palette.len() as int);
    lemma_uniform_run(c, len, cap);
    law_first_run(repeat(c, len), palette);
    assert(repeat(c, len)[0] == c);
}

/// One character more than `max_run` is written as the full pair and the
/// single symbol of the character that is left.
pub proof fn law_run_one_over_limit(c: char, palette: Seq<char>)
    requires
        usable(palette),
    ensures
        encode_spec(repeat(c, max_run(palette.len() as int) + 1), palette) == run_symbols(
            c,
            max_run(palette.len() as int),
            palette,
        ) + run_symbols(c, 1, palette),
{
    let cap = max_run(palette.len() as int);
    law_run_over_limit(c, cap + 1, palette);
    law_single(repeat(c, 1), palette);
    assert(repeat(c, 1)[0] == c);
    assert(repeat(c, 1).skip(1) =~= Seq::<char>::empty());
    assert(encode_spec(Seq::<char>::empty(), palette) =~= Seq::<char>::empty());
    assert(run_symbols(c, 1, palette) + Seq::<char>::empty() =~= run_symbols(c, 1, palette));
}

/// A character that its right neighbour differs from is written as one
/// symbol, with no run-length symbol behind it.
pub proof fn law_single(text: Seq<char>, palette: Seq<char>)
    requires
        usable(palette),
        text.len() >= 1,
        text.len() == 1 || text[1] != text[0],
    ensures
        encode_spec(text, palette) == seq![code_table()[palette_index(palette, text[0])]]
            + encode_spec(text.skip(1), palette),
{
}

/// Where two texts meet in different characters, the compact form of the
/// joined text is the two compact forms joined.
pub proof fn law_join(a: Seq<char>, b: Seq<char>, palette: Seq<char>)
    requires
        usable(palette),
        a.len() == 0 || b.len() == 0 || a.last() != b[0],
    ensures
        encode_spec(a + b, palette) == encode_spec(a, palette) + encode_spec(b, palette),
    decreases a.len(),
{
    if a.len() == 0 {
        assert(a + b =~= b);
        assert(encode_spec(a, palette) + encode_spec(b, palette) =~= encode_spec(b, palette));
    } else if b.len() == 0 {
        assert(a + b =~= a);
        assert(encode_spec(a, palette) + encode_spec(b, palette) =~= encode_spec(a, palette));
    } else {
        let cap = max_run(palette.len() as int);
        let n = run_len(a, cap);
        lemma_run_len_is_run(a, cap);
        let whole = a + b;
        assert forall|i: int| 0 <= i < n implies #[trigger] whole[i] == whole[0] by {
            assert(whole[i] == a[i]);
        }
        if n == a.len() {
            assert(whole[n] == b[0]);
            assert(a[n - 1] == a[0]);
        } else {
            assert(whole[n] == a[n]);
        }
        assert(is_run(whole, cap, n));
        lemma_run_unique(whole, cap, n);
        let rest = a.skip(n);
        assert(whole.skip(n) =~= rest + b);
        if rest.len() > 0 {
            assert(rest.last() == a.last());
        }
        law_join(rest, b, palette);
        assert(run_symbols(a[0], n, palette) + (encode_spec(rest, palette) + encode_spec(
            b,
            palette,
        )) =~= (run_symbols(a[0], n, palette) + encode_spec(rest, palette)) + encode_spec(
            b,
            palette,
        ));
    }
}

/// A character whose two neighbours differ from it is written as exactly
/// one symbol, between the compact forms of what stands before and after.
pub proof fn law_isolated(a: Seq<char>, c: char, b: Seq<char>, palette: Seq<char>)
    requires
        usable(palette),
        a.len() == 0 || a.last() != c,
        b.len() == 0 || b[0] != c,
    ensures
        encode_spec(a + seq![c] + b, palette) == encode_spec(a, palette) + seq![
            code_table()[palette_index(palette, c)],
        ] + encode_spec(b, palette),
{
    let mid = seq![c];
    law_join(a, mid, palette);
    law_join(a + mid, b, palette);
    law_single(mid, palette);
    assert(mid.skip(1) =~= Seq::<char>::empty());
    assert(encode_spec(mid, palette) =~= seq![code_table()[palette_index(palette, c)]]);
}

/// No text is written as no symbol, compact text with no symbol stands for
/// no text, and no text has no line, under every palette and width.
pub proof fn law_empty(palette: Seq<char>, width: int)
    ensures
        encode_spec(Seq::<char>::empty(), palette) == Seq::<char>::empty(),
        decode_spec(Seq::<char>::empty(), palette) == Seq::<char>::empty(),
        wrap_spec(decode_spec(Seq::<char>::empty(), palette), width) == Seq::<Seq<char>>::empty(),
{
}

/// The lines of a text joined give the text again, none is empty and none
/// is longer than the width.
pub proof fn law_wrap(flat: Seq<char>, width: int)
    requires
        width >= 1,
    ensures
        wrap_spec(flat, width).flatten() == flat,
        forall|i: int|
            0 <= i < wrap_spec(flat, width).len() ==> 1 <= (#[trigger] wrap_spec(flat, width)[i]).len()
                <= width,
    decreases flat.len(),
{
    if flat.len() == 0 {
        assert(wrap_spec(flat, width).flatten() =~= flat);
    } else if flat.len() <= width {
        seq![flat].lemma_flatten_one_element();
    } else {
        let head = flat.take(width);
        let rest = flat.skip(width);
        law_wrap(rest, width);
        let lines = wrap_spec(rest, width);
        vstd::seq_lib::lemma_flatten_concat(seq![head], lines);
        seq![head].lemma_flatten_one_element();
        assert(head + rest =~= flat);
    }
}

/// Text that was written and read back, cut at its own length, is one line:
/// the text.
pub proof fn law_round_trip_line(text: Seq<char>, palette: Seq<char>)
    requires
        usable(palette),
        over_palette(text, palette),
        text.len() >= 1,
    ensures
        wrap_spec(decode_spec(encode_spec(text, palette), palette), text.len() as int) == seq![text],
{
    law_round_trip(text, palette);
}

/// Text without a line feed is flat already.
pub proof fn law_flatten_plain(text: Seq<char>)
    requires
        !text.contains('\n'),
    ensures
        flatten_spec(text) == text,
    decreases text.len(),
{
    if text.len() > 0 {
        let rest = text.skip(1);
        assert(text[0] != '\n');
        if text.len() >= 2 {
            assert(text[1] != '\n');
        }
        assert forall|i: int| 0 <= i < rest.len() implies rest[i] != '\n' by {
            assert(rest[i] == text[i + 1]);
        }
        law_flatten_plain(rest);
        assert(seq![text[0]] + rest =~= text);
    }
}

/// Flat text holds no line feed, and no character that the text it was
/// made from lacks.
pub proof fn law_flatten_chars(text: Seq<char>)
    ensures
        forall|i: int|
            0 <= i < flatten_spec(text).len() ==> (#[trigger] flatten_spec(text)[i]) != '\n'
                && text.contains(flatten_spec(text)[i]),
    decreases text.len(),
{
    if text.len() > 0 {
        let pair = text[0] == '\r' && text.len() >= 2 && text[1] == '\n';
        let kept = text[0] != '\n' && !pair;
        let used: int = if pair { 2 } else { 1 };
        let rest = text.skip(used);
        law_flatten_chars(rest);
        let flat = flatten_spec(text);
        assert forall|i: int| 0 <= i < flat.len() implies (#[trigger] flat[i]) != '\n'
            && text.contains(flat[i]) by {
            if kept && i == 0 {
                assert(text[0] == flat[0]);
            } else {
                let at: int = if kept { i - 1 } else { i };
                let c = flatten_spec(rest)[at];
                assert(c == flat[i]);
                assert(rest.contains(c));
                let j = choose|j: int| 0 <= j < rest.len() && rest[j] == c;
                assert(text[j + used] == c);
            }
        }
    }
}

/// Rendered rows hold characters of the palette and line feeds, nothing
/// else.
pub proof fn law_render_chars(samples: Seq<u8>, width: int, count: int, palette: Seq<char>)
    requires
        palette.len() >= 1,
    ensures
        forall|i: int|
            0 <= i < render_rows(samples, width, count, palette).len() ==> (#[trigger] render_rows(
                samples,
                width,
                count,
                palette,
            )[i]) == '\n' || palette.contains(render_rows(samples, width, count, palette)[i]),
    decreases count,
{
    if count > 0 {
        law_render_chars(samples, width, count - 1, palette);
        let above = render_rows(samples, width, count - 1, palette);
        let row = samples.subrange((count - 1) * width, count * width);
        let line = render_row(row, palette);
        let all = render_rows(samples, width, count, palette);
        assert(all == above + line);
        assert forall|i: int| 0 <= i < all.len() implies (#[trigger] all[i]) == '\n'
            || palette.contains(all[i]) by {
            if i >= above.len() {
                let j = i - above.len();
                assert(all[i] == line[j]);
                if j < row.len() {
                    lemma_shade_index(row[j], palette.len() as int);
                    assert(line[j] == palette[shade_index(row[j], palette.len() as int)]);
                }
            } else {
                assert(all[i] == above[i]);
            }
        }
    }
}

/// What a grid renders to can be compressed and read back: the flat text
/// comes out as it went in.
pub proof fn law_rendered_round_trip(image: Raster, palette: Seq<char>)
    requires
        usable(palette),
    ensures
        over_palette(flatten_spec(image.render_spec(palette)), palette),
        decode_spec(encode_spec(flatten_spec(image.render_spec(palette)), palette), palette)
            == flatten_spec(image.render_spec(palette)),
{
    let text = image.render_spec(palette);
    let flat = flatten_spec(text);
    law_flatten_chars(text);
    if image.cols() != 0 {
        law_render_chars(image.samples(), image.cols(), image.rows(), palette);
    }
    assert forall|i: int| 0 <= i < flat.len() implies palette.contains(#[trigger] flat[i]) by {
        let c = flat[i];
        assert(text.contains(c));
        let j = choose|j: int| 0 <= j < text.len() && text[j] == c;
        assert(text[j] == c);
    }
    law_round_trip(flat, palette);
}

} // verus!
