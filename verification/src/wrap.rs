//! Wrapping of text into rows of at most `width` characters.

use itertools::Itertools;
use vstd::prelude::*;

verus! {

/// A slice of one logical line that fits into the wrap width.
#[derive(Clone, Debug)]
pub struct LineChunk {
    /// At most `width` characters, none of them a line break.
    pub text: Vec<char>,
    /// Whether this is the final chunk of its logical line.
    pub is_last: bool,
}

/// The mathematical value of a [`LineChunk`].
pub ghost struct ChunkModel {
    pub text: Seq<char>,
    pub is_last: bool,
}

impl View for LineChunk {
    type V = ChunkModel;

    open spec fn view(&self) -> ChunkModel {
        ChunkModel { text: self.text@, is_last: self.is_last }
    }
}

/// The values of a sequence of chunks, in order.
pub open spec fn chunk_views(chunks: Seq<LineChunk>) -> Seq<ChunkModel> {
    Seq::new(chunks.len(), |i: int| chunks[i]@)
}

/// The values of a sequence of lines, in order.
pub open spec fn line_views(lines: Seq<Vec<char>>) -> Seq<Seq<char>> {
    Seq::new(lines.len(), |i: int| lines[i]@)
}

/// The line that runs from `start` up to `end`, where `closed` says that a
/// line feed stands at `end`. A carriage return directly before that line feed
/// belongs to the line ending, not to the line.
pub open spec fn line_between(s: Seq<char>, start: int, end: int, closed: bool) -> Seq<char> {
    if closed && start < end && s[end - 1] == '\r' {
        s.subrange(start, end - 1)
    } else {
        s.subrange(start, end)
    }
}

/// The logical lines of `s` that are still to come when the text has been read
/// up to `pos` and the line being read began at `start`.
pub open spec fn lines_after(s: Seq<char>, start: int, pos: int) -> Seq<Seq<char>>
    decreases s.len() - pos,
{
    if pos >= s.len() {
        if start < s.len() {
            seq![line_between(s, start, s.len() as int, false)]
        } else {
            Seq::empty()
        }
    } else if s[pos] == '\n' {
        seq![line_between(s, start, pos, true)] + lines_after(s, pos + 1, pos + 1)
    } else {
        lines_after(s, start, pos + 1)
    }
}

/// The logical lines of a text: it is cut at every line feed, a line ending is
/// no part of its line, and a line ending at the very end opens no new line.
pub open spec fn text_lines(s: Seq<char>) -> Seq<Seq<char>> {
    lines_after(s, 0, 0)
}

/// What is shown of a logical line: an empty one is shown as a single space.
pub open spec fn shown_line(line: Seq<char>) -> Seq<char> {
    if line.len() == 0 {
        seq![' ']
    } else {
        line
    }
}

/// The number of rows that `n` characters take at `width` characters per row.
pub open spec fn chunk_count(n: int, width: int) -> int {
    (n + width - 1) / width
}

/// Row `i` of `line`: its characters from `i * width` on, `width` of them or
/// as many as are left.
pub open spec fn piece(line: Seq<char>, width: int, i: int) -> Seq<char> {
    line.subrange(
        i * width,
        if (i + 1) * width <= line.len() {
            (i + 1) * width
        } else {
            line.len() as int
        },
    )
}

/// The chunks of one logical line.
pub open spec fn line_chunks(line: Seq<char>, width: int) -> Seq<ChunkModel> {
    let shown = shown_line(line);
    let n = chunk_count(shown.len() as int, width);
    Seq::new(n as nat, |i: int| ChunkModel { text: piece(shown, width, i), is_last: i == n - 1 })
}

/// The chunks of a sequence of logical lines, line after line.
pub open spec fn wrap_lines(lines: Seq<Seq<char>>, width: int) -> Seq<ChunkModel>
    decreases lines.len(),
{
    if lines.len() == 0 {
        Seq::empty()
    } else {
        wrap_lines(lines.drop_last(), width) + line_chunks(lines.last(), width)
    }
}

/// The chunks of a text.
pub open spec fn wrap_spec(text: Seq<char>, width: int) -> Seq<ChunkModel> {
    wrap_lines(text_lines(text), width)
}

/// Copies the characters of `s` from `start` up to `end`.
fn copy_range(s: &Vec<char>, start: usize, end: usize) -> (out: Vec<char>)
    requires
        start <= end <= s.len(),
    ensures
        out@ == s@.subrange(start as int, end as int),
{
    let mut out: Vec<char> = Vec::new();
    let mut i: usize = start;
    while i < end
        invariant
            start <= i <= end <= s.len(),
            out@ == s@.subrange(start as int, i as int),
        decreases end - i,
    {
        out.push(s[i]);
        i += 1;
        assert(s@.subrange(start as int, i as int) == s@.subrange(start as int, i - 1).push(
            s@[i - 1],
        ));
    }
    out
}

/// Cuts a text into its logical lines.
pub fn split_lines(text: &Vec<char>) -> (out: Vec<Vec<char>>)
    ensures
        line_views(out@) == text_lines(text@),
{
    let mut out: Vec<Vec<char>> = Vec::new();
    let mut start: usize = 0;
    let mut pos: usize = 0;
    let n: usize = text.len();
    while pos < n
        invariant
            n == text.len(),
            start <= pos <= n,
            line_views(out@) + lines_after(text@, start as int, pos as int) == text_lines(text@),
        decreases n - pos,
    {
        if text[pos] == '\n' {
            let end: usize = if start < pos && text[pos - 1] == '\r' {
                pos - 1
            } else {
                pos
            };
            let line = copy_range(text, start, end);
            let ghost before = line_views(out@);
            out.push(line);
            assert(line_views(out@) == before + seq![line_between(
                text@,
                start as int,
                pos as int,
                true,
            )]);
            start = pos + 1;
        }
        pos += 1;
    }
    if start < n {
        let line = copy_range(text, start, n);
        let ghost before = line_views(out@);
        out.push(line);
        assert(line_views(out@) == before + seq![line_between(
            text@,
            start as int,
            n as int,
            false,
        )]);
    } else {
        assert(line_views(out@) + Seq::<Seq<char>>::empty() == line_views(out@));
    }
    out
}

/// Cuts the characters of `line` into runs of `size` with `Itertools::chunks`.
/// The claim: there are as many runs as `size` goes into the length, rounded
/// up; run `i` holds the characters from `i * size` on, `size` of them, and the
/// final run holds what is left. `chunks` panics on a size of zero.
#[verifier::external_body]
fn char_chunks(line: &Vec<char>, size: usize) -> (out: Vec<Vec<char>>)
    requires
        size > 0,
    ensures
        out@.len() == chunk_count(line@.len() as int, size as int),
        forall|i: int| 0 <= i < out@.len() ==> (#[trigger] out@[i])@ == piece(line@, size as int, i),
{
    let mut out: Vec<Vec<char>> = Vec::new();
    for chunk in &line.iter().copied().chunks(size) {
        out.push(chunk.collect());
    }
    out
}

/// Cuts one logical line into chunks of at most `width` characters. An empty
/// line gives one chunk that holds a single space. The final chunk, and no
/// other, is marked as the last of its line.
pub fn split_line(line: &Vec<char>, width: u16) -> (out: Vec<LineChunk>)
    requires
        width > 0,
    ensures
        chunk_views(out@) == line_chunks(line@, width as int),
{
    let mut pieces = if line.len() == 0 {
        let mut space: Vec<char> = Vec::new();
        space.push(' ');
        assert(space@ == seq![' ']);
        char_chunks(&space, width as usize)
    } else {
        char_chunks(line, width as usize)
    };
    let ghost shown = shown_line(line@);
    let ghost all = pieces@;
    let n: usize = pieces.len();
    let mut rev: Vec<LineChunk> = Vec::new();
    while pieces.len() > 0
        invariant
            n == all.len(),
            pieces@ == all.take(pieces.len() as int),
            rev.len() + pieces.len() == n,
            forall|j: int|
                0 <= j < rev.len() ==> (#[trigger] rev@[j])@ == (ChunkModel {
                    text: all[n - 1 - j]@,
                    is_last: j == 0,
                }),
        decreases pieces.len(),
    {
        let is_last = rev.len() == 0;
        let text = pieces.pop().unwrap();
        rev.push(LineChunk { text, is_last });
    }
    let ghost turned = rev@;
    let mut out: Vec<LineChunk> = Vec::new();
    while rev.len() > 0
        invariant
            n == turned.len(),
            rev@ == turned.take(rev.len() as int),
            out.len() + rev.len() == n,
            forall|j: int| 0 <= j < out.len() ==> (#[trigger] out@[j]) == turned[n - 1 - j],
        decreases rev.len(),
    {
        let chunk = rev.pop().unwrap();
        out.push(chunk);
    }
    assert(chunk_views(out@) =~= line_chunks(line@, width as int));
    out
}

/// Wraps a text: every logical line is cut into chunks of at most `width`
/// characters, and the chunks of all lines follow each other in order.
pub fn wrap(text: &Vec<char>, width: u16) -> (out: Vec<LineChunk>)
    requires
        width > 0,
    ensures
        chunk_views(out@) == wrap_spec(text@, width as int),
{
    let lines = split_lines(text);
    let mut out: Vec<LineChunk> = Vec::new();
    let mut i: usize = 0;
    assert(line_views(lines@).take(0) =~= Seq::<Seq<char>>::empty());
    while i < lines.len()
        invariant
            width > 0,
            i <= lines.len(),
            chunk_views(out@) == wrap_lines(line_views(lines@).take(i as int), width as int),
        decreases lines.len() - i,
    {
        let mut chunks = split_line(&lines[i], width);
        let ghost before = out@;
        let ghost added = chunks@;
        out.append(&mut chunks);
        proof {
            let done = line_views(lines@).take(i + 1);
            assert(done.drop_last() =~= line_views(lines@).take(i as int));
            assert(done.last() == lines@[i as int]@);
            assert(chunk_views(before + added) =~= chunk_views(before) + chunk_views(added));
        }
        i += 1;
    }
    assert(line_views(lines@).take(lines.len() as int) =~= line_views(lines@));
    out
}

/// The last chunk of a wrapped text, or nothing where the text has no line.
pub open spec fn last_chunk_text(text: Seq<char>, width: int) -> Seq<char> {
    let chunks = wrap_spec(text, width);
    if chunks.len() == 0 {
        Seq::empty()
    } else {
        chunks.last().text
    }
}

/// The chunk texts of a sequence of chunks, joined in order.
pub open spec fn joined(chunks: Seq<ChunkModel>) -> Seq<char>
    decreases chunks.len(),
{
    if chunks.len() == 0 {
        Seq::empty()
    } else {
        joined(chunks.drop_last()) + chunks.last().text
    }
}

/// `chunk_count` rounds up: the rows but the final one do not hold `n`
/// characters, and all of them do.
pub proof fn lemma_chunk_count(n: int, width: int)
    requires
        n >= 0,
        width > 0,
    ensures
        chunk_count(n, width) >= 0,
        (chunk_count(n, width) - 1) * width < n <= chunk_count(n, width) * width,
{
    let x = n + width - 1;
    vstd::arithmetic::div_mod::lemma_fundamental_div_mod(x, width);
    vstd::arithmetic::div_mod::lemma_mod_bound(x, width);
    let q = x / width;
    assert(x == width * q + x % width);
    assert((q - 1) * width == width * q - width) by (nonlinear_arith);
    assert(q * width == width * q) by (nonlinear_arith);
}

/// Row `i` of a line lies inside the line and holds between one and `width`
/// characters.
pub proof fn lemma_piece_bounds(line: Seq<char>, width: int, i: int)
    requires
        width > 0,
        0 <= i < chunk_count(line.len() as int, width),
    ensures
        0 <= i * width < line.len(),
        (i + 1) * width == i * width + width,
        1 <= piece(line, width, i).len() <= width,
        i < chunk_count(line.len() as int, width) - 1 ==> (i + 1) * width <= line.len(),
        i == chunk_count(line.len() as int, width) - 1 ==> piece(line, width, i)
            == line.subrange(i * width, line.len() as int),
{
    let n = chunk_count(line.len() as int, width);
    lemma_chunk_count(line.len() as int, width);
    assert(0 <= i * width <= (n - 1) * width) by (nonlinear_arith)
        requires
            0 <= i <= n - 1,
            width > 0,
    ;
    assert((i + 1) * width == i * width + width) by (nonlinear_arith);
    if i < n - 1 {
        assert((i + 1) * width <= (n - 1) * width) by (nonlinear_arith)
            requires
                i + 1 <= n - 1,
                width > 0,
        ;
    } else {
        assert((i + 1) * width == n * width);
        if (i + 1) * width <= line.len() {
            assert(piece(line, width, i) == line.subrange(i * width, line.len() as int));
        }
    }
}

/// Every chunk of a wrapped line holds between one and `width` characters.
pub proof fn lemma_line_chunks_fit(line: Seq<char>, width: int)
    requires
        width > 0,
    ensures
        line_chunks(line, width).len() >= 1,
        forall|i: int|
            0 <= i < line_chunks(line, width).len() ==> 1 <= (#[trigger] line_chunks(
                line,
                width,
            )[i]).text.len() <= width,
{
    let shown = shown_line(line);
    let n = chunk_count(shown.len() as int, width);
    lemma_chunk_count(shown.len() as int, width);
    if n == 0 {
        assert(n * width == 0);
    }
    assert forall|i: int| 0 <= i < line_chunks(line, width).len() implies 1 <= (
    #[trigger] line_chunks(line, width)[i]).text.len() <= width by {
        lemma_piece_bounds(shown, width, i);
    }
}

/// Every chunk of a wrapped text holds between one and `width` characters.
pub proof fn lemma_chunks_fit(text: Seq<char>, width: int)
    requires
        width > 0,
    ensures
        forall|i: int|
            0 <= i < wrap_spec(text, width).len() ==> 1 <= (#[trigger] wrap_spec(
                text,
                width,
            )[i]).text.len() <= width,
{
    lemma_wrapped_lines_fit(text_lines(text), width);
}

proof fn lemma_wrapped_lines_fit(lines: Seq<Seq<char>>, width: int)
    requires
        width > 0,
    ensures
        forall|i: int|
            0 <= i < wrap_lines(lines, width).len() ==> 1 <= (#[trigger] wrap_lines(
                lines,
                width,
            )[i]).text.len() <= width,
    decreases lines.len(),
{
    if lines.len() > 0 {
        lemma_wrapped_lines_fit(lines.drop_last(), width);
        lemma_line_chunks_fit(lines.last(), width);
        let front = wrap_lines(lines.drop_last(), width);
        let back = line_chunks(lines.last(), width);
        assert forall|i: int| 0 <= i < wrap_lines(lines, width).len() implies 1 <= (
        #[trigger] wrap_lines(lines, width)[i]).text.len() <= width by {
            if i < front.len() {
                assert(wrap_lines(lines, width)[i] == front[i]);
            } else {
                assert(wrap_lines(lines, width)[i] == back[i - front.len()]);
            }
        }
    }
}

/// The chunks of one logical line, joined in order, give the line back as it
/// is shown: the line itself, or a single space for an empty line.
pub proof fn lemma_line_round_trip(line: Seq<char>, width: int)
    requires
        width > 0,
    ensures
        joined(line_chunks(line, width)) == shown_line(line),
{
    let chunks = line_chunks(line, width);
    lemma_joined_prefix(line, width, chunks.len() as int);
    assert(chunks.take(chunks.len() as int) =~= chunks);
    lemma_chunk_count(shown_line(line).len() as int, width);
    assert(shown_line(line).take(shown_line(line).len() as int) =~= shown_line(line));
}

proof fn lemma_joined_prefix(line: Seq<char>, width: int, k: int)
    requires
        width > 0,
        0 <= k <= line_chunks(line, width).len(),
    ensures
        k < line_chunks(line, width).len() ==> k * width <= shown_line(line).len() && joined(
            line_chunks(line, width).take(k),
        ) == shown_line(line).take(k * width),
        k == line_chunks(line, width).len() ==> joined(line_chunks(line, width).take(k))
            == shown_line(line),
    decreases k,
{
    let shown = shown_line(line);
    let chunks = line_chunks(line, width);
    lemma_chunk_count(shown.len() as int, width);
    if k == 0 {
        assert(0 * width == 0) by (nonlinear_arith);
        assert(joined(chunks.take(0)) =~= shown.take(0));
    } else {
        lemma_joined_prefix(line, width, k - 1);
        lemma_piece_bounds(shown, width, k - 1);
        let part = chunks.take(k);
        assert(part.drop_last() =~= chunks.take(k - 1));
        assert(part.last().text == piece(shown, width, k - 1));
        assert((k - 1 + 1) * width == k * width);
        if k < chunks.len() {
            assert(joined(part) =~= shown.take(k * width));
        } else {
            assert(joined(part) =~= shown);
        }
    }
}

/// Where lines are still to come, the final one of them is no longer than
/// what is left of the text from `start` on. Where the text does not end in a
/// line feed, that line is the text's own tail.
proof fn lemma_final_line(s: Seq<char>, start: int, pos: int)
    requires
        0 <= start <= pos <= s.len(),
    ensures
        lines_after(s, start, pos).len() > 0 <==> start < s.len(),
        start < s.len() ==> lines_after(s, start, pos).last().len() <= s.len() - start,
        start < s.len() && s.last() != '\n' ==> lines_after(s, start, pos).last().len() > 0
            && lines_after(s, start, pos).last() == s.subrange(
            s.len() - lines_after(s, start, pos).last().len(),
            s.len() as int,
        ),
    decreases s.len() - pos,
{
    if pos >= s.len() {
    } else if s[pos] == '\n' {
        lemma_final_line(s, pos + 1, pos + 1);
        let rest = lines_after(s, pos + 1, pos + 1);
        let all = lines_after(s, start, pos);
        assert(all == seq![line_between(s, start, pos, true)] + rest);
        if rest.len() > 0 {
            assert(all.last() == rest.last());
        } else {
            assert(all.last() == line_between(s, start, pos, true));
        }
    } else {
        lemma_final_line(s, start, pos + 1);
    }
}

/// The last chunk of a wrapped text is never longer than the text. Where the
/// text does not end in a line feed, the last chunk is the text's own tail.
pub proof fn lemma_last_chunk(text: Seq<char>, width: int)
    requires
        width > 0,
    ensures
        last_chunk_text(text, width).len() <= text.len(),
        wrap_spec(text, width).len() > 0 <==> text.len() > 0,
        text.len() > 0 && text.last() != '\n' ==> last_chunk_text(text, width) == text.subrange(
            text.len() - last_chunk_text(text, width).len(),
            text.len() as int,
        ),
{
    let lines = text_lines(text);
    lemma_final_line(text, 0, 0);
    if lines.len() > 0 {
        let line = lines.last();
        let shown = shown_line(line);
        let n = chunk_count(shown.len() as int, width);
        lemma_line_chunks_fit(line, width);
        lemma_chunk_count(shown.len() as int, width);
        lemma_piece_bounds(shown, width, n - 1);
        assert(wrap_spec(text, width).last() == line_chunks(line, width).last());
        assert(last_chunk_text(text, width) == shown.subrange((n - 1) * width, shown.len() as int));
        if text.last() != '\n' {
            let k = text.len() - line.len();
            assert(shown == text.subrange(k, text.len() as int));
            assert(last_chunk_text(text, width) =~= text.subrange(
                text.len() - last_chunk_text(text, width).len(),
                text.len() as int,
            ));
        }
    }
}

/// The lines that a sequence of chunks stands for: the texts of the chunks up
/// to and with each chunk that closes a line, joined. `open` holds the texts
/// of the chunks of a line that is not closed yet.
pub open spec fn regrouped(chunks: Seq<ChunkModel>, open: Seq<char>) -> Seq<Seq<char>>
    decreases chunks.len(),
{
    if chunks.len() == 0 {
        Seq::empty()
    } else if chunks[0].is_last {
        seq![open + chunks[0].text] + regrouped(chunks.drop_first(), Seq::empty())
    } else {
        regrouped(chunks.drop_first(), open + chunks[0].text)
    }
}

/// Each of the lines as it is shown.
pub open spec fn shown_lines(lines: Seq<Seq<char>>) -> Seq<Seq<char>> {
    Seq::new(lines.len(), |i: int| shown_line(lines[i]))
}

proof fn lemma_regroup_line(line: Seq<char>, width: int, k: int, rest: Seq<ChunkModel>)
    requires
        width > 0,
        0 <= k < line_chunks(line, width).len(),
    ensures
        k * width <= shown_line(line).len(),
        regrouped(line_chunks(line, width).skip(k) + rest, shown_line(line).take(k * width))
            == seq![shown_line(line)] + regrouped(rest, Seq::empty()),
    decreases line_chunks(line, width).len() - k,
{
    let shown = shown_line(line);
    let chunks = line_chunks(line, width);
    let n = chunks.len() as int;
    let here = chunks.skip(k) + rest;
    let open = shown.take(k * width);
    lemma_chunk_count(shown.len() as int, width);
    lemma_piece_bounds(shown, width, k);
    assert(here[0] == chunks[k]);
    assert(chunks[k].text == piece(shown, width, k));
    if k == n - 1 {
        assert(here.drop_first() =~= rest);
        assert(open + here[0].text =~= shown);
    } else {
        lemma_regroup_line(line, width, k + 1, rest);
        assert(here.drop_first() =~= chunks.skip(k + 1) + rest);
        assert(open + here[0].text =~= shown.take((k + 1) * width));
    }
}

proof fn lemma_regroup_lines(lines: Seq<Seq<char>>, width: int, rest: Seq<ChunkModel>)
    requires
        width > 0,
    ensures
        regrouped(wrap_lines(lines, width) + rest, Seq::empty()) == shown_lines(lines) + regrouped(
            rest,
            Seq::empty(),
        ),
    decreases lines.len(),
{
    if lines.len() == 0 {
        assert(wrap_lines(lines, width) + rest =~= rest);
        assert(shown_lines(lines) + regrouped(rest, Seq::empty()) =~= regrouped(
            rest,
            Seq::empty(),
        ));
    } else {
        let front = lines.drop_last();
        let back = line_chunks(lines.last(), width);
        lemma_line_chunks_fit(lines.last(), width);
        lemma_regroup_lines(front, width, back + rest);
        lemma_regroup_line(lines.last(), width, 0, rest);
        assert(0 * width == 0) by (nonlinear_arith);
        assert(back.skip(0) =~= back);
        assert(shown_line(lines.last()).take(0) =~= Seq::<char>::empty());
        assert(wrap_lines(lines, width) + rest =~= wrap_lines(front, width) + (back + rest));
        assert(shown_lines(lines) =~= shown_lines(front) + seq![shown_line(lines.last())]);
        assert(shown_lines(front) + (seq![shown_line(lines.last())] + regrouped(
            rest,
            Seq::empty(),
        )) =~= shown_lines(lines) + regrouped(rest, Seq::empty()));
    }
}

/// Wrapping loses nothing: the chunks of a text, joined up to each chunk that
/// closes a line, give back the logical lines of the text, each as it is
/// shown, in order.
pub proof fn lemma_wrap_round_trip(text: Seq<char>, width: int)
    requires
        width > 0,
    ensures
        regrouped(wrap_spec(text, width), Seq::empty()) == shown_lines(text_lines(text)),
{
    let none = Seq::<ChunkModel>::empty();
    lemma_regroup_lines(text_lines(text), width, none);
    assert(wrap_spec(text, width) + none =~= wrap_spec(text, width));
    assert(shown_lines(text_lines(text)) + regrouped(none, Seq::empty()) =~= shown_lines(
        text_lines(text),
    ));
}

proof fn lemma_lines_hold_no_break(s: Seq<char>, start: int, pos: int)
    requires
        0 <= start <= pos <= s.len(),
        forall|k: int| start <= k < pos ==> s[k] != '\n',
    ensures
        forall|i: int, k: int|
            0 <= i < lines_after(s, start, pos).len() && 0 <= k < lines_after(s, start, pos)[i].len()
                ==> (#[trigger] lines_after(s, start, pos)[i][k]) != '\n',
    decreases s.len() - pos,
{
    let all = lines_after(s, start, pos);
    if pos >= s.len() {
        assert forall|i: int, k: int| 0 <= i < all.len() && 0 <= k < all[i].len() implies (
        #[trigger] all[i][k]) != '\n' by {
            assert(all[i][k] == s[start + k]);
        }
    } else if s[pos] == '\n' {
        lemma_lines_hold_no_break(s, pos + 1, pos + 1);
        let rest = lines_after(s, pos + 1, pos + 1);
        let first = line_between(s, start, pos, true);
        assert(all == seq![first] + rest);
        assert forall|i: int, k: int| 0 <= i < all.len() && 0 <= k < all[i].len() implies (
        #[trigger] all[i][k]) != '\n' by {
            if i == 0 {
                assert(all[i][k] == s[start + k]);
            } else {
                assert(all[i][k] == rest[i - 1][k]);
            }
        }
    } else {
        lemma_lines_hold_no_break(s, start, pos + 1);
        assert(all == lines_after(s, start, pos + 1));
    }
}

proof fn lemma_wrapped_lines_hold_no_break(lines: Seq<Seq<char>>, width: int)
    requires
        width > 0,
        forall|i: int, k: int|
            0 <= i < lines.len() && 0 <= k < lines[i].len() ==> (#[trigger] lines[i][k]) != '\n',
    ensures
        forall|i: int, k: int|
            0 <= i < wrap_lines(lines, width).len() && 0 <= k < wrap_lines(
                lines,
                width,
            )[i].text.len() ==> (#[trigger] wrap_lines(lines, width)[i].text[k]) != '\n',
    decreases lines.len(),
{
    if lines.len() > 0 {
        let all = wrap_lines(lines, width);
        let front = wrap_lines(lines.drop_last(), width);
        let shown = shown_line(lines.last());
        let back = line_chunks(lines.last(), width);
        lemma_wrapped_lines_hold_no_break(lines.drop_last(), width);
        assert forall|i: int, k: int| 0 <= i < all.len() && 0 <= k < all[i].text.len() implies (
        #[trigger] all[i].text[k]) != '\n' by {
            if i < front.len() {
                assert(all[i] == front[i]);
            } else {
                let j = i - front.len();
                assert(all[i] == back[j]);
                lemma_piece_bounds(shown, width, j);
                assert(back[j].text[k] == shown[j * width + k]);
                if lines.last().len() > 0 {
                    assert(shown[j * width + k] == lines.last()[j * width + k]);
                }
            }
        }
    }
}

/// No chunk of a wrapped text holds a line feed.
pub proof fn lemma_chunks_hold_no_break(text: Seq<char>, width: int)
    requires
        width > 0,
    ensures
        forall|i: int, k: int|
            0 <= i < wrap_spec(text, width).len() && 0 <= k < wrap_spec(text, width)[i].text.len()
                ==> (#[trigger] wrap_spec(text, width)[i].text[k]) != '\n',
{
    lemma_lines_hold_no_break(text, 0, 0);
    lemma_wrapped_lines_hold_no_break(text_lines(text), width);
}

} // verus!
