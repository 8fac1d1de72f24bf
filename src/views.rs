use crate::common::CgVgError;
use crate::paint::{
    bright_purple_code, cyan_code, highlight_code, paint_bright_purple, paint_cyan,
    paint_highlight, paint_red, painted, red_code, tinted,
};
use crate::print_terminal::{
    decimal, digits, lemma_digits_monotone, number_of_digits, pad_number, push_decimal,
    wrap_spec, wrap_text,
};
use crate::ripgrep_json::{Match, SubMatch};
use crate::text::{push_spaces, spaces, views};
use vstd::prelude::*;
use vstd::string::StringSliceAdditionalSpecFns;
use vstd::utf8::{decode_utf8, encode_utf8, is_char_boundary};

verus! {

/// `s` without the newlines at its end.
pub open spec fn trim_newlines(s: Seq<char>) -> Seq<char>
    decreases s.len(),
{
    if s.len() > 0 && s.last() == '\n' {
        trim_newlines(s.drop_last())
    } else {
        s
    }
}

/// The text of the bytes `from..to` of a UTF-8 encoding.
pub open spec fn utf8_piece(b: Seq<u8>, from: int, to: int) -> Seq<char> {
    decode_utf8(b.subrange(from, to))
}

/// Where the text after range `k - 1` starts.
pub open spec fn range_cursor(rs: Seq<(u32, u32)>, k: int) -> int {
    if k <= 0 {
        0
    } else {
        rs[k - 1].1 as int
    }
}

/// Range `k` starts after the previous one ends, is not reversed, ends within
/// the text, and cuts it between chars.
pub open spec fn range_ok(b: Seq<u8>, rs: Seq<(u32, u32)>, k: int) -> bool {
    &&& range_cursor(rs, k) <= rs[k].0 as int
    &&& rs[k].0 <= rs[k].1
    &&& rs[k].1 <= b.len()
    &&& is_char_boundary(b, rs[k].0 as int)
    &&& is_char_boundary(b, rs[k].1 as int)
}

/// Every range is in order and within the text.
pub open spec fn ranges_ok(b: Seq<u8>, rs: Seq<(u32, u32)>) -> bool {
    forall|k: int| 0 <= k < rs.len() ==> range_ok(b, rs, k)
}

/// A submatch as shown: highlighted, or plain when colors are off.
pub open spec fn shown(s: Seq<char>, on: bool) -> Seq<char> {
    if on {
        painted(s, highlight_code())
    } else {
        s
    }
}

/// The text up to the end of range `n - 1`, each range shown by `modes`.
pub open spec fn highlighted_upto(
    b: Seq<u8>,
    rs: Seq<(u32, u32)>,
    modes: Seq<bool>,
    n: nat,
) -> Seq<char>
    decreases n,
{
    if n == 0 || n > rs.len() {
        seq![]
    } else {
        highlighted_upto(b, rs, modes, (n - 1) as nat) + utf8_piece(
            b,
            range_cursor(rs, n - 1),
            rs[n - 1].0 as int,
        ) + shown(utf8_piece(b, rs[n - 1].0 as int, rs[n - 1].1 as int), modes[n - 1])
    }
}

/// The whole text with its ranges shown by `modes`.
pub open spec fn highlighted(b: Seq<u8>, rs: Seq<(u32, u32)>, modes: Seq<bool>) -> Seq<char> {
    highlighted_upto(b, rs, modes, rs.len()) + utf8_piece(
        b,
        range_cursor(rs, rs.len() as int),
        b.len() as int,
    )
}

/// `s` without the newlines at its end.
pub fn trim_end_newlines(s: &str) -> (r: &str)
    ensures
        r@ == trim_newlines(s@),
{
    let mut k = s.unicode_len();
    assert(s@.take(k as int) =~= s@);
    while k > 0 && s.get_char(k - 1) == '\n'
        invariant
            k <= s@.len(),
            trim_newlines(s@) == trim_newlines(s@.take(k as int)),
        decreases k,
    {
        assert(s@.take(k as int).drop_last() =~= s@.take(k - 1));
        k = k - 1;
    }
    assert(k > 0 ==> s@.take(k as int).last() == s@[k - 1]);
    s.substring_char(0, k)
}

proof fn lemma_piece_view(x: &str, b: Seq<u8>, from: int, to: int)
    requires
        0 <= from <= to <= b.len(),
        x.spec_bytes() == b.subrange(from, to),
    ensures
        x@ == utf8_piece(b, from, to),
{
    vstd::utf8::encode_utf8_decode_utf8(x@);
}

/// The submatch ranges suit `text`: each one starts after the previous one
/// ends, is not reversed, ends within the text and cuts it between chars.
pub fn submatches_fit(text: &String, submatches: &Vec<(u32, u32)>) -> (r: bool)
    ensures
        r == ranges_ok(encode_utf8(text@), submatches@),
{
    let t = text.as_str();
    let ghost b = encode_utf8(t@);
    let n = t.as_bytes().len();
    let mut cursor: usize = 0;
    let mut i: usize = 0;
    while i < submatches.len()
        invariant
            i <= submatches.len(),
            b == encode_utf8(text@),
            b == encode_utf8(t@),
            b == t.spec_bytes(),
            n == b.len(),
            cursor == range_cursor(submatches@, i as int),
            forall|k: int| 0 <= k < i ==> range_ok(b, submatches@, k),
        decreases submatches.len() - i,
    {
        let (s32, e32) = submatches[i];
        let start = s32 as usize;
        let end = e32 as usize;
        if start < cursor || end < start || end > n || !t.is_char_boundary(start)
            || !t.is_char_boundary(end) {
            assert(!range_ok(b, submatches@, i as int));
            return false;
        }
        cursor = end;
        i = i + 1;
    }
    true
}

/// The text with each submatch range (byte offsets) highlighted. The ranges
/// must suit the text (see `submatches_fit`): a wrong range is a corrupt
/// record, which the caller turns away first.
pub fn color_submatch(text: &String, submatches: &Vec<(u32, u32)>) -> (r: Option<String>)
    requires
        ranges_ok(encode_utf8(text@), submatches@),
    ensures
        r is Some,
        exists|modes: Seq<bool>|
            modes.len() == submatches@.len() && r->0@ == #[trigger] highlighted(
                encode_utf8(text@),
                submatches@,
                modes,
            ),
{
    let t = text.as_str();
    let ghost b = encode_utf8(t@);
    let n = t.as_bytes().len();
    proof {
        vstd::utf8::encode_utf8_valid_utf8(t@);
        vstd::utf8::is_char_boundary_start_end_of_seq(b);
    }
    let mut out = String::new();
    let mut rest: &str = t;
    assert(b.subrange(0, n as int) =~= b);
    let mut cursor: usize = 0;
    let ghost mut modes: Seq<bool> = seq![];
    let mut i: usize = 0;
    while i < submatches.len()
        invariant
            i <= submatches.len(),
            b == encode_utf8(t@),
            b == encode_utf8(text@),
            ranges_ok(b, submatches@),
            vstd::utf8::valid_utf8(b),
            n == b.len(),
            cursor == range_cursor(submatches@, i as int),
            cursor <= n,
            rest.spec_bytes() == b.subrange(cursor as int, n as int),
            modes.len() == i,
            out@ == highlighted_upto(b, submatches@, modes, i as nat),
        decreases submatches.len() - i,
    {
        let (s32, e32) = submatches[i];
        let start = s32 as usize;
        let end = e32 as usize;
        assert(range_ok(b, submatches@, i as int));
        proof {
            let rb = b.subrange(cursor as int, n as int);
            vstd::utf8::encode_utf8_valid_utf8(rest@);
            if start > cursor && start < n {
                vstd::utf8::is_char_boundary_iff_not_is_continuation_byte(b, start as int);
                vstd::utf8::is_char_boundary_iff_not_is_continuation_byte(
                    rb,
                    (start - cursor) as int,
                );
            }
            vstd::utf8::is_char_boundary_start_end_of_seq(rb);
        }
        let (gap, r1) = rest.split_at(start - cursor);
        proof {
            let rb1 = b.subrange(start as int, n as int);
            assert(r1.spec_bytes() =~= rb1);
            vstd::utf8::encode_utf8_valid_utf8(r1@);
            if end > start && end < n {
                vstd::utf8::is_char_boundary_iff_not_is_continuation_byte(b, end as int);
                vstd::utf8::is_char_boundary_iff_not_is_continuation_byte(
                    rb1,
                    (end - start) as int,
                );
            }
            vstd::utf8::is_char_boundary_start_end_of_seq(rb1);
        }
        let (hl, r2) = r1.split_at(end - start);
        proof {
            assert(gap.spec_bytes() =~= b.subrange(cursor as int, start as int));
            assert(hl.spec_bytes() =~= b.subrange(start as int, end as int));
            assert(r2.spec_bytes() =~= b.subrange(end as int, n as int));
            lemma_piece_view(gap, b, cursor as int, start as int);
            lemma_piece_view(hl, b, start as int, end as int);
        }
        let p = paint_highlight(hl);
        let ghost on = p@ != hl@;
        out.append(gap);
        out.append(p.as_str());
        proof {
            let m2 = modes.push(on);
            assert(highlighted_upto(b, submatches@, m2, i as nat) == highlighted_upto(
                b,
                submatches@,
                modes,
                i as nat,
            )) by {
                lemma_highlighted_upto_prefix(b, submatches@, modes, m2, i as nat);
            }
            assert(shown(hl@, on) == p@);
            modes = m2;
        }
        rest = r2;
        cursor = end;
        i = i + 1;
    }
    proof {
        lemma_piece_view(rest, b, cursor as int, n as int);
    }
    out.append(rest);
    assert(out@ =~= highlighted(b, submatches@, modes));
    Some(out)
}

/// `v`, or `own` when `v` is `None`.
pub open spec fn or_own(v: Option<u32>, own: u32) -> u32 {
    match v {
        Some(m) => m,
        None => own,
    }
}

/// `n` in decimal, padded with spaces to `width` chars.
pub open spec fn padded(n: nat, width: nat) -> Seq<char> {
    decimal(n) + spaces((width - digits(n)) as nat)
}

/// The prefix of the first line of a match: ordinal, four spaces, line
/// number, four spaces; each number colored or not.
pub open spec fn match_prefix(idx: Seq<char>, line: Seq<char>, on_idx: bool, on_line: bool) -> Seq<
    char,
> {
    tinted(idx, cyan_code(), on_idx) + spaces(4) + tinted(line, bright_purple_code(), on_line)
        + spaces(4)
}

/// Wrapped lines behind a prefix: the first after `prefix`, the others after
/// `width` spaces.
pub open spec fn framed(prefix: Seq<char>, width: nat, ws: Seq<Seq<char>>) -> Seq<Seq<char>> {
    Seq::new(
        ws.len(),
        |i: int|
            if i == 0 {
                prefix + ws[0]
            } else {
                spaces(width) + ws[i]
            },
    )
}

/// `lines` are `ws` behind the prefix of `idx` and `line`, whether or not
/// each number got its color.
pub open spec fn framed_match(
    lines: Seq<Seq<char>>,
    idx: Seq<char>,
    line: Seq<char>,
    width: nat,
    ws: Seq<Seq<char>>,
) -> bool {
    exists|on_idx: bool, on_line: bool|
        lines == #[trigger] framed(match_prefix(idx, line, on_idx, on_line), width, ws)
}

/// Visible width of the prefix of a match line.
pub open spec fn prefix_width(line_number: u32, idx: u32, line_max: Option<u32>, idx_max: Option<u32>) -> nat {
    digits(or_own(line_max, line_number) as nat) + digits(or_own(idx_max, idx) as nat) + 8
}

/// A colored text behind its ordinal and line number, wrapped to what is left of
/// the terminal. The numbers are padded to the digits of `idx_max` and
/// `line_number_max` (their own when `None`), so that a batch lines up.
pub fn padding_and_wrap(
    colored_text: &String,
    line_number: &u32,
    idx: &u32,
    terminal_size: &u32,
    line_number_max: Option<u32>,
    idx_max: Option<u32>,
) -> (r: Result<Vec<String>, CgVgError>)
    requires
        digits(*line_number as nat) <= digits(or_own(line_number_max, *line_number) as nat),
        digits(*idx as nat) <= digits(or_own(idx_max, *idx) as nat),
    ensures
        ({
            let lw = digits(or_own(line_number_max, *line_number) as nat);
            let iw = digits(or_own(idx_max, *idx) as nat);
            let psize = prefix_width(*line_number, *idx, line_number_max, idx_max);
            &&& *terminal_size <= psize ==> r == Err::<Vec<String>, CgVgError>(
                CgVgError::DegenerateWidth,
            )
            &&& *terminal_size > psize ==> match wrap_spec(
                colored_text@,
                (*terminal_size - psize) as nat,
                8,
                true,
            ) {
                Err(e) => r == Err::<Vec<String>, CgVgError>(e),
                Ok(ws) => r is Ok && framed_match(
                    views(r->Ok_0@),
                    padded(*idx as nat, iw),
                    padded(*line_number as nat, lw),
                    psize,
                    ws,
                ),
            }
        }),
{
    let line_max = match line_number_max {
        Some(m) => m,
        None => *line_number,
    };
    let index_max = match idx_max {
        Some(m) => m,
        None => *idx,
    };
    let lw = number_of_digits(&line_max);
    let iw = number_of_digits(&index_max);
    let line_number_str = pad_number(*line_number, lw);
    let idx_str = pad_number(*idx, iw);
    let prefix_size = lw + iw + 8;
    if *terminal_size <= prefix_size {
        return Err(CgVgError::DegenerateWidth);
    }
    let text_size = *terminal_size - prefix_size;
    let wrapped = match wrap_text(colored_text.as_str(), &text_size, &8, true) {
        Ok(v) => v,
        Err(e) => {
            return Err(e);
        },
    };
    let idx_painted = paint_cyan(idx_str.as_str());
    let line_painted = paint_bright_purple(line_number_str.as_str());
    let ghost on_idx = idx_painted@ != idx_str@;
    let ghost on_line = line_painted@ != line_number_str@;
    let mut prefix = idx_painted;
    push_spaces(&mut prefix, 4);
    prefix.append(line_painted.as_str());
    push_spaces(&mut prefix, 4);
    let ghost want_prefix = match_prefix(idx_str@, line_number_str@, on_idx, on_line);
    assert(prefix@ =~= want_prefix);
    let ghost ws = views(wrapped@);
    let mut result: Vec<String> = Vec::new();
    let mut i: usize = 0;
    while i < wrapped.len()
        invariant
            i <= wrapped.len(),
            ws == views(wrapped@),
            prefix@ == want_prefix,
            views(result@) =~= framed(want_prefix, prefix_size as nat, ws).take(i as int),
        decreases wrapped.len() - i,
    {
        let mut line = String::new();
        if i == 0 {
            line.append(prefix.as_str());
        } else {
            push_spaces(&mut line, prefix_size);
        }
        line.append(wrapped[i].as_str());
        let ghost r0 = result@;
        result.push(line);
        assert(views(result@) =~= views(r0).push(line@));
        i = i + 1;
    }
    assert(framed(want_prefix, prefix_size as nat, ws).take(wrapped.len() as int) =~= framed(
        want_prefix,
        prefix_size as nat,
        ws,
    ));
    assert(idx_str@ == padded(*idx as nat, iw as nat));
    assert(line_number_str@ == padded(*line_number as nat, lw as nat));
    let ghost lw_s = digits(or_own(line_number_max, *line_number) as nat);
    let ghost iw_s = digits(or_own(idx_max, *idx) as nat);
    let ghost psize = prefix_width(*line_number, *idx, line_number_max, idx_max);
    assert(wrap_spec(colored_text@, (*terminal_size - psize) as nat, 8, true) == Ok::<
        Seq<Seq<char>>,
        CgVgError,
    >(ws));
    assert(views(result@) == framed(
        match_prefix(padded(*idx as nat, iw_s), padded(*line_number as nat, lw_s), on_idx, on_line),
        psize,
        ws,
    ));
    assert(framed_match(
        views(result@),
        padded(*idx as nat, iw_s),
        padded(*line_number as nat, lw_s),
        psize,
        ws,
    ));
    Ok(result)
}

/// The largest line number of the matching lines among the first `n` records.
pub open spec fn max_line_of(recs: Seq<(Match, u32)>, n: nat) -> u32
    decreases n,
{
    if n == 0 || n > recs.len() {
        0
    } else {
        let m = max_line_of(recs, (n - 1) as nat);
        match recs[n - 1].0 {
            Match::Match { line_number, .. } => if line_number > m {
                line_number
            } else {
                m
            },
            _ => m,
        }
    }
}

/// The largest ordinal of the matching lines among the first `n` records.
pub open spec fn max_idx_of(recs: Seq<(Match, u32)>, n: nat) -> u32
    decreases n,
{
    if n == 0 || n > recs.len() {
        0
    } else {
        let m = max_idx_of(recs, (n - 1) as nat);
        match recs[n - 1].0 {
            Match::Match { .. } => if recs[n - 1].1 > m {
                recs[n - 1].1
            } else {
                m
            },
            _ => m,
        }
    }
}

/// The byte ranges of the submatches.
pub open spec fn sub_ranges(subs: Seq<SubMatch>) -> Seq<(u32, u32)> {
    subs.map_values(|s: SubMatch| (s.start, s.end))
}

/// The notice shown instead of a line longer than the limit.
pub open spec fn truncated_notice(len: nat, max: nat) -> Seq<char> {
    "text truncated size("@ + decimal(len) + ")>"@ + decimal(max)
}

/// The line is longer than `max_text` bytes.
pub open spec fn is_truncated(text: Seq<char>, max_text: Option<u32>) -> bool {
    max_text is Some && encode_utf8(text).len() > max_text->0
}

/// `shown` is how a matching line looks before wrapping: the truncation
/// notice in red when the line is too long, else the line with its
/// submatches highlighted and its trailing newlines dropped.
pub open spec fn shown_line(
    text: Seq<char>,
    subs: Seq<SubMatch>,
    max_text: Option<u32>,
    shown: Seq<char>,
) -> bool {
    if is_truncated(text, max_text) {
        exists|on: bool|
            shown == #[trigger] tinted(
                truncated_notice(encode_utf8(text).len(), max_text->0 as nat),
                red_code(),
                on,
            )
    } else {
        &&& ranges_ok(encode_utf8(text), sub_ranges(subs))
        &&& exists|modes: Seq<bool>|
            modes.len() == subs.len() && shown == trim_newlines(
                #[trigger] highlighted(encode_utf8(text), sub_ranges(subs), modes),
            )
    }
}

/// `out` is the block printed for record `rec` with ordinal `idx`, in a batch
/// whose largest line number and ordinal are `lmax` and `imax`.
pub open spec fn record_block(
    rec: Match,
    idx: u32,
    lmax: u32,
    imax: u32,
    terminal: u32,
    max_text: Option<u32>,
    out: Seq<Seq<char>>,
) -> bool {
    match rec {
        Match::Begin { path } => exists|on: bool|
            out == seq![#[trigger] tinted(path.text@, red_code(), on)],
        Match::End { .. } => out == seq![Seq::<char>::empty()],
        Match::Summary { .. } => out == Seq::<Seq<char>>::empty(),
        Match::Match { lines, line_number, submatches, .. } => {
            let psize = prefix_width(line_number, idx, Some(lmax), Some(imax));
            &&& terminal > psize
            &&& exists|shown: Seq<char>|
                #[trigger] shown_line(lines.text@, submatches@, max_text, shown) && wrap_spec(
                    shown,
                    (terminal - psize) as nat,
                    8,
                    true,
                ) is Ok && framed_match(
                    out,
                    padded(idx as nat, digits(imax as nat)),
                    padded(line_number as nat, digits(lmax as nat)),
                    psize,
                    wrap_spec(shown, (terminal - psize) as nat, 8, true)->Ok_0,
                )
        },
    }
}

/// Record `rec` cannot be shown, with error `e`: its submatch ranges are
/// wrong, or the terminal is not wider than its prefix, or its text does not
/// wrap (it ends inside an escape sequence).
pub open spec fn record_error(
    rec: Match,
    idx: u32,
    lmax: u32,
    imax: u32,
    terminal: u32,
    max_text: Option<u32>,
    e: CgVgError,
) -> bool {
    match rec {
        Match::Match { lines, line_number, submatches, .. } => {
            let psize = prefix_width(line_number, idx, Some(lmax), Some(imax));
            if !is_truncated(lines.text@, max_text) && !ranges_ok(
                encode_utf8(lines.text@),
                sub_ranges(submatches@),
            ) {
                e == CgVgError::SubmatchRangeInvalid
            } else if terminal <= psize {
                e == CgVgError::DegenerateWidth
            } else {
                exists|shown: Seq<char>|
                    #[trigger] shown_line(lines.text@, submatches@, max_text, shown) && wrap_spec(
                        shown,
                        (terminal - psize) as nat,
                        8,
                        true,
                    ) == Err::<Seq<Seq<char>>, CgVgError>(e)
            }
        },
        _ => false,
    }
}

/// The limit behind an optional reference.
pub open spec fn deref_limit(m: Option<&u32>) -> Option<u32> {
    match m {
        Some(v) => Some(*v),
        None => None,
    }
}

/// All the blocks, one after the other.
pub open spec fn concat_blocks(bs: Seq<Seq<Seq<char>>>) -> Seq<Seq<char>>
    decreases bs.len(),
{
    if bs.len() == 0 {
        seq![]
    } else {
        concat_blocks(bs.drop_last()) + bs.last()
    }
}

/// The lines to print for a batch of records: a path marker in red for each
/// file, each matching line behind its aligned ordinal and line number, a
/// blank line after each file. Fails when a matching line cannot be shown:
/// its submatch ranges are wrong, or the terminal is too narrow.
pub fn match_view(
    matched: &Vec<(Match, u32)>,
    terminal_size: &u32,
    max_text_size: Option<&u32>,
) -> (r: Result<Vec<String>, CgVgError>)
    ensures
        r is Ok ==> exists|blocks: Seq<Seq<Seq<char>>>|
            blocks.len() == matched@.len() && views(r->Ok_0@) == #[trigger] concat_blocks(blocks)
                && forall|k: int|
                0 <= k < matched@.len() ==> record_block(
                    matched@[k].0,
                    matched@[k].1,
                    max_line_of(matched@, matched@.len()),
                    max_idx_of(matched@, matched@.len()),
                    *terminal_size,
                    deref_limit(max_text_size),
                    #[trigger] blocks[k],
                ),
        r matches Err(e) ==> exists|k: int|
            0 <= k < matched@.len() && #[trigger] record_error(
                matched@[k].0,
                matched@[k].1,
                max_line_of(matched@, matched@.len()),
                max_idx_of(matched@, matched@.len()),
                *terminal_size,
                deref_limit(max_text_size),
                e,
            ),
{
    let max_text: Option<u32> = match max_text_size {
        Some(m) => Some(*m),
        None => None,
    };
    let mut max_idx: u32 = 0;
    let mut max_line: u32 = 0;
    let mut j: usize = 0;
    while j < matched.len()
        invariant
            j <= matched.len(),
            max_line == max_line_of(matched@, j as nat),
            max_idx == max_idx_of(matched@, j as nat),
        decreases matched.len() - j,
    {
        match &matched[j].0 {
            Match::Match { line_number, .. } => {
                if *line_number > max_line {
                    max_line = *line_number;
                }
                if matched[j].1 > max_idx {
                    max_idx = matched[j].1;
                }
            },
            _ => {},
        }
        j = j + 1;
    }
    proof {
        lemma_max_of_bounds(matched@, matched@.len());
    }
    let mut out: Vec<String> = Vec::new();
    let ghost mut blocks: Seq<Seq<Seq<char>>> = seq![];
    let mut i: usize = 0;
    while i < matched.len()
        invariant
            i <= matched.len(),
            max_line == max_line_of(matched@, matched@.len()),
            max_idx == max_idx_of(matched@, matched@.len()),
            max_text == match max_text_size {
                Some(m) => Some(*m),
                None => None::<u32>,
            },
            forall|k: int|
                0 <= k < matched@.len() ==> match #[trigger] matched@[k].0 {
                    Match::Match { line_number, .. } => line_number <= max_line && matched@[k].1
                        <= max_idx,
                    _ => true,
                },
            blocks.len() == i,
            views(out@) == concat_blocks(blocks),
            forall|k: int|
                0 <= k < i ==> record_block(
                    matched@[k].0,
                    matched@[k].1,
                    max_line,
                    max_idx,
                    *terminal_size,
                    max_text,
                    #[trigger] blocks[k],
                ),
        decreases matched.len() - i,
    {
        let idx = matched[i].1;
        let ghost o0 = out@;
        let ghost block: Seq<Seq<char>>;
        match &matched[i].0 {
            Match::Match { lines, line_number, submatches, .. } => {
                let text = &lines.text;
                let len = text.as_str().as_bytes().len();
                let mut shown_text: String;
                let ghost trunc = is_truncated(text@, max_text);
                if max_text.is_some() && len > max_text.unwrap() as usize {
                    let max = max_text.unwrap();
                    let mut notice = String::from_str("text truncated size(");
                    push_decimal(&mut notice, len as u64);
                    notice.append(")>");
                    push_decimal(&mut notice, max as u64);
                    assert(notice@ =~= truncated_notice(len as nat, max as nat));
                    shown_text = paint_red(notice.as_str());
                    let ghost on = shown_text@ != notice@;
                    assert(shown_text@ == tinted(
                        truncated_notice(encode_utf8(text@).len(), max_text->0 as nat),
                        red_code(),
                        on,
                    ));
                } else {
                    let mut ranges: Vec<(u32, u32)> = Vec::new();
                    let mut k: usize = 0;
                    while k < submatches.len()
                        invariant
                            k <= submatches.len(),
                            ranges@ == sub_ranges(submatches@).take(k as int),
                        decreases submatches.len() - k,
                    {
                        ranges.push((submatches[k].start, submatches[k].end));
                        assert(ranges@ =~= sub_ranges(submatches@).take(k + 1));
                        k = k + 1;
                    }
                    assert(ranges@ =~= sub_ranges(submatches@));
                    if !submatches_fit(text, &ranges) {
                        assert(record_error(
                            matched@[i as int].0,
                            idx,
                            max_line,
                            max_idx,
                            *terminal_size,
                            max_text,
                            CgVgError::SubmatchRangeInvalid,
                        ));
                        return Err(CgVgError::SubmatchRangeInvalid);
                    }
                    let colored = match color_submatch(text, &ranges) {
                        Some(s) => s,
                        None => {
                            return vstd::pervasive::unreached();
                        },
                    };
                    shown_text = String::from_str(trim_end_newlines(colored.as_str()));
                    proof {
                        let modes = choose|modes: Seq<bool>|
                            modes.len() == ranges@.len() && colored@ == #[trigger] highlighted(
                                encode_utf8(text@),
                                ranges@,
                                modes,
                            );
                        assert(shown_text@ == trim_newlines(
                            highlighted(encode_utf8(text@), sub_ranges(submatches@), modes),
                        ));
                    }
                }
                assert(shown_line(text@, submatches@, max_text, shown_text@));
                proof {
                    lemma_digits_monotone(*line_number as nat, max_line as nat);
                    lemma_digits_monotone(idx as nat, max_idx as nat);
                }
                let lines_out = match padding_and_wrap(
                    &shown_text,
                    line_number,
                    &idx,
                    terminal_size,
                    Some(max_line),
                    Some(max_idx),
                ) {
                    Ok(v) => v,
                    Err(e) => {
                        assert(record_error(
                            matched@[i as int].0,
                            idx,
                            max_line,
                            max_idx,
                            *terminal_size,
                            max_text,
                            e,
                        ));
                        return Err(e);
                    },
                };
                let mut k: usize = 0;
                while k < lines_out.len()
                    invariant
                        k <= lines_out.len(),
                        views(out@) == views(o0) + views(lines_out@).take(k as int),
                    decreases lines_out.len() - k,
                {
                    let ghost prev = out@;
                    let cl = lines_out[k].clone();
                    out.push(cl);
                    assert(views(out@) =~= views(prev).push(lines_out@[k as int]@));
                    assert(views(out@) =~= views(o0) + views(lines_out@).take(k + 1));
                    k = k + 1;
                }
                proof {
                    block = views(lines_out@);
                    assert(views(lines_out@).take(lines_out.len() as int) =~= block);
                    assert(record_block(
                        matched@[i as int].0,
                        idx,
                        max_line,
                        max_idx,
                        *terminal_size,
                        max_text,
                        block,
                    ));
                }
            },
            Match::Begin { path } => {
                let p = paint_red(path.text.as_str());
                let ghost on = p@ != path.text@;
                out.push(p);
                proof {
                    block = seq![tinted(path.text@, red_code(), on)];
                    assert(views(out@) =~= views(o0) + block);
                }
            },
            Match::End { .. } => {
                out.push(String::new());
                proof {
                    block = seq![Seq::<char>::empty()];
                    assert(views(out@) =~= views(o0) + block);
                }
            },
            Match::Summary { .. } => {
                proof {
                    block = seq![];
                    assert(views(out@) =~= views(o0) + block);
                }
            },
        }
        proof {
            let b2 = blocks.push(block);
            assert(b2.drop_last() =~= blocks);
            assert(concat_blocks(b2) == concat_blocks(blocks) + block);
            blocks = b2;
        }
        i = i + 1;
    }
    Ok(out)
}

proof fn lemma_max_of_bounds(recs: Seq<(Match, u32)>, n: nat)
    requires
        n <= recs.len(),
    ensures
        forall|k: int|
            0 <= k < n ==> match #[trigger] recs[k].0 {
                Match::Match { line_number, .. } => line_number <= max_line_of(recs, n)
                    && recs[k].1 <= max_idx_of(recs, n),
                _ => true,
            },
    decreases n,
{
    if n > 0 {
        lemma_max_of_bounds(recs, (n - 1) as nat);
    }
}

/// Submatch ranges that are sorted, do not overlap, end within the text and
/// cut it between chars suit it (`submatches_fit` says so, and
/// `color_submatch` takes them); a range that ends past the text does not.
pub proof fn lemma_submatch_ranges(text: Seq<char>, rs: Seq<(u32, u32)>)
    ensures
        ({
            let b = encode_utf8(text);
            &&& (forall|k: int|
                0 <= k < rs.len() ==> {
                    &&& #[trigger] rs[k].0 <= rs[k].1 <= b.len()
                    &&& (k > 0 ==> rs[k - 1].1 <= rs[k].0)
                    &&& is_char_boundary(b, rs[k].0 as int)
                    &&& is_char_boundary(b, rs[k].1 as int)
                }) ==> ranges_ok(b, rs)
            &&& (exists|k: int| 0 <= k < rs.len() && #[trigger] rs[k].1 > b.len()) ==> !ranges_ok(
                b,
                rs,
            )
        }),
{
    let b = encode_utf8(text);
    if forall|k: int|
        0 <= k < rs.len() ==> {
            &&& #[trigger] rs[k].0 <= rs[k].1 <= b.len()
            &&& (k > 0 ==> rs[k - 1].1 <= rs[k].0)
            &&& is_char_boundary(b, rs[k].0 as int)
            &&& is_char_boundary(b, rs[k].1 as int)
        } {
        assert forall|k: int| 0 <= k < rs.len() implies range_ok(b, rs, k) by {
            assert(rs[k].0 <= rs[k].1 <= b.len());
        }
    }
    if exists|k: int| 0 <= k < rs.len() && #[trigger] rs[k].1 > b.len() {
        let k = choose|k: int| 0 <= k < rs.len() && #[trigger] rs[k].1 > b.len();
        assert(!range_ok(b, rs, k));
    }
}

proof fn lemma_highlighted_upto_prefix(
    b: Seq<u8>,
    rs: Seq<(u32, u32)>,
    m1: Seq<bool>,
    m2: Seq<bool>,
    n: nat,
)
    requires
        n <= m1.len() <= m2.len(),
        forall|k: int| 0 <= k < m1.len() ==> m1[k] == m2[k],
    ensures
        highlighted_upto(b, rs, m1, n) == highlighted_upto(b, rs, m2, n),
    decreases n,
{
    if n > 0 {
        lemma_highlighted_upto_prefix(b, rs, m1, m2, (n - 1) as nat);
    }
}

} // verus!
