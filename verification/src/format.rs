//! Re-wrapping of text: a line longer than the width is broken at a space and
//! what follows the break is carried over to the front of the next line.

use vstd::prelude::*;

use crate::text::{
    chars_range, extend_chars, is_ws, join_lines, lemma_join_lines_concat, lemma_split_join_lines,
    lemma_split_lines_pieces, lemma_trim_start, lemma_words_blank, lemma_words_concat,
    lemma_words_join_lines, lemma_words_lines_concat, lemma_words_split_lines,
    lemma_words_trim_start, split_lines, split_lines_chars, str_chars, string_from_chars,
    trim_start, trim_start_chars, words, words_lines,
};

verus! {

broadcast use vstd::string::group_string_axioms;

/// The width that `format_content` wraps lines to.
pub const LINE_WIDTH: usize = 80;

/// Searching down from `i` to 1: the first position that holds a space.
pub open spec fn last_space_down(l: Seq<char>, i: int) -> Option<int>
    decreases i,
{
    if i <= 0 {
        None
    } else if l[i] == ' ' {
        Some(i)
    } else {
        last_space_down(l, i - 1)
    }
}

/// Searching up from `i` to the end: the first position that holds a space.
pub open spec fn first_space_up(l: Seq<char>, i: int) -> Option<int>
    decreases l.len() - i,
{
    if i < 0 || i >= l.len() {
        None
    } else if l[i] == ' ' {
        Some(i)
    } else {
        first_space_up(l, i + 1)
    }
}

/// Where a line longer than `count` characters is broken: the last space at a
/// position in `1..=count`, else the first space at or after `count`; a line
/// of at most `count` characters is not broken.
pub open spec fn spec_find_space(l: Seq<char>, count: int) -> Option<int> {
    if l.len() <= count {
        None
    } else {
        match last_space_down(l, count) {
            Some(i) => Some(i),
            None => first_space_up(l, count),
        }
    }
}

/// A line broken after its space at the break position: the head (which
/// keeps the space) and the tail; an unbroken line is its own head.
pub open spec fn spec_line_split(l: Seq<char>, count: int) -> (Seq<char>, Option<Seq<char>>) {
    match spec_find_space(l, count) {
        Some(s) => (l.take(s + 1), Some(l.skip(s + 1))),
        None => (l, None),
    }
}

/// The carried-over text joined to the next input line by a space.
pub open spec fn join_pending(rem: Seq<char>, line: Seq<char>) -> Seq<char> {
    if rem.len() == 0 {
        line
    } else {
        rem + seq![' '] + line
    }
}

/// How many of the spaces at the end of the joined line the formatter put
/// there itself: one more than the carried-over text ended with when the
/// next input line is empty, else none.
pub open spec fn joined_spaces(rem: Seq<char>, j: nat, line: Seq<char>) -> nat {
    if rem.len() > 0 && line.len() == 0 {
        j + 1
    } else {
        0
    }
}

/// One step of the formatter on a line whose last `j` characters are spaces
/// that the formatter put there itself: the line it emits, what it carries
/// over, and how many spaces at the end of that the formatter put there.
///
/// A line that is broken (see `spec_line_split`) emits its head without the
/// break space and carries over its tail without leading whitespace. Where
/// the head would end in spaces the formatter put there, those are left out
/// too. A line that is not broken is emitted whole, less the spaces at its
/// end that the formatter put there; nothing is carried over. The line's own
/// whitespace is never removed from the end of an emitted line.
pub open spec fn fmt_step(line: Seq<char>, j: nat) -> (Seq<char>, Seq<char>, nat) {
    let n = line.len() as int;
    match spec_find_space(line, LINE_WIDTH as int) {
        Some(s) => {
            let r = trim_start(line.skip(s + 1));
            (
                line.take(if s < n - j { s } else { n - j }),
                r,
                if r.len() == 0 || s >= n - j { 0 } else { j },
            )
        },
        None => (line.take(n - j), seq![], 0),
    }
}

/// The lines emitted for the input lines `lines`, what is carried over after
/// the last of them, and how many spaces the formatter put at its end.
pub open spec fn emitted_prefix(lines: Seq<Seq<char>>) -> (Seq<Seq<char>>, Seq<char>, nat)
    decreases lines.len(),
{
    if lines.len() == 0 {
        (seq![], seq![], 0)
    } else {
        let (ems, rem, j) = emitted_prefix(lines.drop_last());
        let l = lines.last();
        let (e, r, k) = fmt_step(join_pending(rem, l), joined_spaces(rem, j, l));
        (ems.push(e), r, k)
    }
}

/// The lines emitted while the carried-over text `rem`, whose last `j`
/// characters the formatter put there, is worked off.
pub open spec fn drain(rem: Seq<char>, j: nat) -> Seq<Seq<char>>
    decreases rem.len(),
{
    if rem.len() == 0 {
        seq![]
    } else {
        proof {
            lemma_step_shrinks(rem, j);
        }
        seq![fmt_step(rem, j).0] + drain(fmt_step(rem, j).1, fmt_step(rem, j).2)
    }
}

/// All lines that formatting `content` emits, in order.
pub open spec fn emitted_lines(content: Seq<char>) -> Seq<Seq<char>> {
    let (ems, rem, j) = emitted_prefix(split_lines(content));
    ems + drain(rem, j)
}

/// The formatted text: each emitted line followed by a line feed.
pub open spec fn spec_format_content(content: Seq<char>) -> Seq<char> {
    join_lines(emitted_lines(content))
}

/// A line is no wider than `LINE_WIDTH`, or it could not have been broken
/// there: it has no space at a position in `1..=LINE_WIDTH`.
pub open spec fn fits_width(e: Seq<char>) -> bool {
    e.len() <= LINE_WIDTH || forall|i: int| 0 < i <= LINE_WIDTH ==> #[trigger] e[i] != ' '
}

/// What every emitted line satisfies.
pub open spec fn good_line(e: Seq<char>) -> bool {
    !e.contains('\n') && fits_width(e)
}

/// The last `j` characters of `s` are spaces.
pub open spec fn ends_with_spaces(s: Seq<char>, j: nat) -> bool {
    j <= s.len() && forall|i: int| s.len() - j <= i < s.len() ==> #[trigger] s[i] == ' '
}

proof fn lemma_last_space_down(l: Seq<char>, i: int)
    requires
        i < l.len(),
    ensures
        last_space_down(l, i) matches Some(k) ==> 0 < k <= i && l[k] == ' ' && forall|m: int|
            k < m <= i ==> l[m] != ' ',
        last_space_down(l, i) is None ==> forall|j: int| 0 < j <= i ==> l[j] != ' ',
    decreases i,
{
    if i > 0 && l[i] != ' ' {
        lemma_last_space_down(l, i - 1);
    }
}

proof fn lemma_first_space_up(l: Seq<char>, i: int)
    requires
        0 <= i,
    ensures
        first_space_up(l, i) matches Some(k) ==> i <= k < l.len() && l[k] == ' ' && forall|m: int|
            i <= m < k ==> l[m] != ' ',
        first_space_up(l, i) is None ==> forall|j: int| i <= j < l.len() ==> l[j] != ' ',
    decreases l.len() - i,
{
    if i < l.len() && l[i] != ' ' {
        lemma_first_space_up(l, i + 1);
    }
}

/// The first position at which a line may be broken: position 0 only when
/// the width is 0.
pub open spec fn first_break_position(count: int) -> int {
    if count == 0 {
        0
    } else {
        1
    }
}

/// Where a line is broken, told by the spaces of the line alone: only a line
/// longer than `count` is broken, and at a space; at the last space at or
/// before `count` where there is one, else at the first space after `count`;
/// and a line longer than `count` is left whole only when it has no space
/// (from position 1 on, or from position 0 when `count` is 0).
pub proof fn lemma_find_space(l: Seq<char>, count: int)
    requires
        0 <= count,
    ensures
        spec_find_space(l, count) matches Some(s) ==> count < l.len() && first_break_position(count)
            <= s < l.len() && l[s] == ' ',
        spec_find_space(l, count) matches Some(s) ==> (s <= count ==> forall|i: int|
            s < i <= count ==> l[i] != ' '),
        spec_find_space(l, count) matches Some(s) ==> (s > count ==> forall|i: int|
            first_break_position(count) <= i < s ==> l[i] != ' '),
        spec_find_space(l, count) matches Some(s) ==> s <= count || forall|j: int|
            0 < j <= count ==> l[j] != ' ',
        spec_find_space(l, count) is None ==> l.len() <= count || forall|i: int|
            first_break_position(count) <= i < l.len() ==> l[i] != ' ',
        spec_find_space(l, count) is None ==> l.len() <= count || forall|j: int|
            0 < j < l.len() ==> l[j] != ' ',
{
    if l.len() > count {
        lemma_last_space_down(l, count);
        lemma_first_space_up(l, count);
        if let Some(s) = spec_find_space(l, count) {
            if s > count {
                assert forall|i: int| first_break_position(count) <= i < s implies l[i] != ' ' by {
                    if i < count {
                        assert(0 < i <= count);
                    }
                }
            }
        }
    }
}

proof fn lemma_no_newline_take(s: Seq<char>, n: int)
    requires
        !s.contains('\n'),
        0 <= n <= s.len(),
    ensures
        !s.take(n).contains('\n'),
{
    if s.take(n).contains('\n') {
        let j = choose|j: int| 0 <= j < s.take(n).len() && s.take(n)[j] == '\n';
        assert(s[j] == '\n');
    }
}

proof fn lemma_no_newline_skip(s: Seq<char>, n: int)
    requires
        !s.contains('\n'),
        0 <= n <= s.len(),
    ensures
        !s.skip(n).contains('\n'),
{
    if s.skip(n).contains('\n') {
        let j = choose|j: int| 0 <= j < s.skip(n).len() && s.skip(n)[j] == '\n';
        assert(s[n + j] == '\n');
    }
}

/// The carried-over text of a step is shorter than the line it came from.
pub proof fn lemma_step_shrinks(x: Seq<char>, j: nat)
    ensures
        x.len() > 0 ==> fmt_step(x, j).1.len() < x.len(),
{
    lemma_find_space(x, LINE_WIDTH as int);
    if let Some(s) = spec_find_space(x, LINE_WIDTH as int) {
        lemma_trim_start(x.skip(s + 1));
    }
}

/// What a formatter step does to a line, told by the line alone: the
/// emitted line is the start of the line and what is carried over is its
/// end; between them there is only whitespace, which holds the break where
/// the line is broken; what is carried over starts with a character that
/// is not whitespace; and of the line before the break only spaces that the
/// formatter put there itself are left out.
pub proof fn lemma_step_shape(x: Seq<char>, j: nat)
    requires
        ends_with_spaces(x, j),
    ensures
        ({
            let (e, r, k) = fmt_step(x, j);
            &&& e.len() + r.len() <= x.len()
            &&& e == x.take(e.len() as int)
            &&& r == x.skip(x.len() - r.len())
            &&& forall|i: int| e.len() <= i < x.len() - r.len() ==> is_ws(#[trigger] x[i])
            &&& r.len() == 0 || !is_ws(r[0])
            &&& spec_find_space(x, LINE_WIDTH as int) matches Some(s) ==> e.len() <= s < x.len()
                - r.len()
            &&& spec_find_space(x, LINE_WIDTH as int) matches Some(s) ==> forall|i: int|
                e.len() <= i < s ==> #[trigger] x[i] == ' ' && i >= x.len() - j
            &&& spec_find_space(x, LINE_WIDTH as int) is None ==> r.len() == 0 && e.len()
                == x.len() - j
        }),
{
    let w = LINE_WIDTH as int;
    let n = x.len() as int;
    lemma_find_space(x, w);
    let (e, r, k) = fmt_step(x, j);
    assert(is_ws(' '));
    match spec_find_space(x, w) {
        Some(s) => {
            let tail = x.skip(s + 1);
            lemma_trim_start(tail);
            let t = tail.len() - r.len();
            assert(r =~= x.skip(n - r.len())) by {
                assert(r == tail.skip(t));
            }
            assert forall|i: int| e.len() <= i < n - r.len() implies is_ws(#[trigger] x[i]) by {
                if i > s {
                    assert(x[i] == tail[i - s - 1]);
                } else if i < s {
                    assert(i >= n - j);
                }
            }
        },
        None => {
            assert(r.len() == 0);
            assert(x.skip(n) =~= r);
        },
    }
}

/// What a broken line carries over starts with a character that is not
/// whitespace: the whitespace after the break is never carried over.
pub proof fn lemma_carry_starts_with_text(x: Seq<char>, j: nat)
    ensures
        fmt_step(x, j).1.len() == 0 || !is_ws(fmt_step(x, j).1[0]),
{
    if let Some(s) = spec_find_space(x, LINE_WIDTH as int) {
        lemma_trim_start(x.skip(s + 1));
    }
}

/// Leaving spaces out of the end of a text keeps its words.
proof fn lemma_words_drop_spaces(x: Seq<char>, m: int, k: int)
    requires
        0 <= m <= k <= x.len(),
        forall|i: int| m <= i < k ==> #[trigger] x[i] == ' ',
    ensures
        words(x.take(m)) == words(x.take(k)),
{
    let a = x.take(m);
    let b = x.subrange(m, k);
    assert(x.take(k) =~= a + b);
    assert(is_ws(' '));
    assert forall|i: int| 0 <= i < b.len() implies is_ws(#[trigger] b[i]) by {
        assert(b[i] == x[m + i]);
    }
    if b.len() > 0 {
        assert(b[0] == x[m]);
    }
    lemma_words_concat(a, b);
    lemma_words_blank(b);
    assert(words(a) + Seq::<Seq<char>>::empty() =~= words(a));
}

/// One formatter step: the emitted line fits, no word is lost or cut, and
/// the spaces counted at the end of what is carried over are spaces.
pub proof fn lemma_step(x: Seq<char>, j: nat)
    requires
        ends_with_spaces(x, j),
    ensures
        fits_width(fmt_step(x, j).0),
        words(fmt_step(x, j).0) + words(fmt_step(x, j).1) == words(x),
        ends_with_spaces(fmt_step(x, j).1, fmt_step(x, j).2),
        !x.contains('\n') ==> !fmt_step(x, j).0.contains('\n') && !fmt_step(
            x,
            j,
        ).1.contains('\n'),
{
    let w = LINE_WIDTH as int;
    let n = x.len() as int;
    lemma_find_space(x, w);
    let (e, r, k) = fmt_step(x, j);
    assert(is_ws(' '));
    match spec_find_space(x, w) {
        Some(s) => {
            let m = if s < n - j { s } else { n - j };
            let tail = x.skip(s + 1);
            lemma_trim_start(tail);
            assert(e == x.take(m));
            assert(e.len() <= s);
            if s > w && e.len() > w {
                assert forall|i: int| 0 < i <= w implies #[trigger] e[i] != ' ' by {
                    assert(e[i] == x[i]);
                }
            }
            // words: x = x.take(s) + [' '] + tail
            let sp = x.skip(s);
            assert(x =~= x.take(s) + sp);
            assert(sp[0] == ' ');
            lemma_words_concat(x.take(s), sp);
            assert(sp =~= seq![' '] + tail);
            lemma_words_concat(seq![' '], tail);
            lemma_words_blank(seq![' ']);
            assert(Seq::<Seq<char>>::empty() + words(tail) =~= words(tail));
            lemma_words_trim_start(tail);
            assert forall|i: int| m <= i < s implies #[trigger] x[i] == ' ' by {
                assert(x[i] == ' ');
            }
            lemma_words_drop_spaces(x, m, s);
            // the spaces at the end of what is carried over
            if k > 0 {
                let t = tail.len() - r.len();
                assert(r == tail.skip(t));
                assert(!is_ws(r[0]));
                assert(tail[t] == r[0]);
                assert(x[s + 1 + t] == tail[t]);
                assert(s + 1 + t < n - j);
                assert forall|i: int| r.len() - k <= i < r.len() implies #[trigger] r[i] == ' ' by {
                    assert(r[i] == tail[t + i]);
                    assert(tail[t + i] == x[s + 1 + t + i]);
                }
            }
            if !x.contains('\n') {
                lemma_no_newline_take(x, m);
                lemma_no_newline_skip(x, s + 1);
                lemma_no_newline_skip(tail, tail.len() - r.len());
            }
        },
        None => {
            assert(e == x.take(n - j));
            if e.len() > w {
                assert forall|i: int| 0 < i <= w implies #[trigger] e[i] != ' ' by {
                    assert(e[i] == x[i]);
                }
            }
            assert forall|i: int| n - j <= i < n implies #[trigger] x[i] == ' ' by {}
            lemma_words_drop_spaces(x, n - j, n);
            assert(x.take(n) =~= x);
            assert(words(r) =~= Seq::<Seq<char>>::empty());
            assert(words(e) + Seq::<Seq<char>>::empty() =~= words(e));
            if !x.contains('\n') {
                lemma_no_newline_take(x, n - j);
            }
        },
    }
}

proof fn lemma_join_pending(rem: Seq<char>, line: Seq<char>)
    ensures
        words(join_pending(rem, line)) == words(rem) + words(line),
        !rem.contains('\n') && !line.contains('\n') ==> !join_pending(rem, line).contains('\n'),
{
    if rem.len() == 0 {
        assert(words(rem) =~= Seq::<Seq<char>>::empty());
        assert(Seq::<Seq<char>>::empty() + words(line) =~= words(line));
    } else {
        let sp = seq![' '];
        assert(is_ws(' '));
        assert((rem + sp).last() == ' ');
        lemma_words_concat(rem + sp, line);
        assert(sp[0] == ' ');
        lemma_words_concat(rem, sp);
        crate::text::lemma_words_blank(sp);
        assert(words(rem) + Seq::<Seq<char>>::empty() =~= words(rem));
        let j = join_pending(rem, line);
        if !rem.contains('\n') && !line.contains('\n') && j.contains('\n') {
            let k = choose|k: int| 0 <= k < j.len() && j[k] == '\n';
            if k < rem.len() {
                assert(rem[k] == '\n');
            } else if k > rem.len() {
                assert(line[k - rem.len() - 1] == '\n');
            }
        }
    }
}

proof fn lemma_joined_spaces(rem: Seq<char>, j: nat, line: Seq<char>)
    requires
        ends_with_spaces(rem, j),
    ensures
        ends_with_spaces(join_pending(rem, line), joined_spaces(rem, j, line)),
{
    let x = join_pending(rem, line);
    if rem.len() > 0 && line.len() == 0 {
        assert(x =~= rem + seq![' ']);
        assert forall|i: int| x.len() - (j + 1) <= i < x.len() implies #[trigger] x[i] == ' ' by {
            if i < rem.len() {
                assert(x[i] == rem[i]);
            }
        }
    }
}

proof fn lemma_emitted_prefix(lines: Seq<Seq<char>>)
    requires
        forall|i: int| 0 <= i < lines.len() ==> !(#[trigger] lines[i]).contains('\n'),
    ensures
        forall|i: int|
            0 <= i < emitted_prefix(lines).0.len() ==> good_line(#[trigger] emitted_prefix(lines).0[i]),
        !emitted_prefix(lines).1.contains('\n'),
        ends_with_spaces(emitted_prefix(lines).1, emitted_prefix(lines).2),
        words_lines(emitted_prefix(lines).0) + words(emitted_prefix(lines).1) == words_lines(lines),
    decreases lines.len(),
{
    if lines.len() == 0 {
        assert(words_lines(seq![]) + words(seq![]) =~= words_lines(lines));
    } else {
        let init = lines.drop_last();
        assert forall|i: int| 0 <= i < init.len() implies !(#[trigger] init[i]).contains('\n') by {
            assert(init[i] == lines[i]);
        }
        lemma_emitted_prefix(init);
        let (ems, rem, j) = emitted_prefix(init);
        let last = lines.last();
        assert(!lines[lines.len() - 1].contains('\n'));
        let x = join_pending(rem, last);
        let jx = joined_spaces(rem, j, last);
        lemma_join_pending(rem, last);
        lemma_joined_spaces(rem, j, last);
        lemma_step(x, jx);
        let (e, r, k) = fmt_step(x, jx);
        let ems2 = ems.push(e);
        assert forall|i: int| 0 <= i < ems2.len() implies good_line(#[trigger] ems2[i]) by {
            if i < ems.len() {
                assert(ems2[i] == ems[i]);
            }
        }
        assert(ems2.drop_last() =~= ems);
        assert(words_lines(ems2) == words_lines(ems) + words(e));
        assert(words_lines(ems) + words(e) + words(r) =~= words_lines(ems) + (words(e) + words(
            r,
        )));
        assert(words_lines(ems) + (words(rem) + words(last)) =~= words_lines(ems) + words(rem)
            + words(last));
    }
}

proof fn lemma_drain(rem: Seq<char>, j: nat)
    requires
        !rem.contains('\n'),
        ends_with_spaces(rem, j),
    ensures
        forall|i: int| 0 <= i < drain(rem, j).len() ==> good_line(#[trigger] drain(rem, j)[i]),
        words_lines(drain(rem, j)) == words(rem),
    decreases rem.len(),
{
    if rem.len() == 0 {
        assert(words(rem) =~= Seq::<Seq<char>>::empty());
        assert(words_lines(drain(rem, j)) =~= Seq::<Seq<char>>::empty());
    } else {
        lemma_step(rem, j);
        lemma_step_shrinks(rem, j);
        let (e, r, k) = fmt_step(rem, j);
        lemma_drain(r, k);
        let d = drain(r, k);
        assert(drain(rem, j) == seq![e] + d);
        assert forall|i: int| 0 <= i < drain(rem, j).len() implies good_line(
            #[trigger] drain(rem, j)[i],
        ) by {
            if i > 0 {
                assert(drain(rem, j)[i] == d[i - 1]);
            }
        }
        lemma_words_lines_concat(seq![e], d);
        assert(seq![e].drop_last() =~= Seq::<Seq<char>>::empty());
        assert(words_lines(seq![e]) =~= words(e)) by {
            assert(words_lines(Seq::<Seq<char>>::empty()) =~= Seq::<Seq<char>>::empty());
        }
    }
}

/// Every line of the formatted text is no wider than `LINE_WIDTH`, unless
/// it has no space at a position in `1..=LINE_WIDTH` to be broken at; and the
/// formatted text consists of exactly the emitted lines, each ended by a
/// line feed.
pub proof fn lemma_format_lines(content: Seq<char>)
    ensures
        forall|i: int|
            0 <= i < emitted_lines(content).len() ==> fits_width(#[trigger] emitted_lines(content)[i]),
        split_lines(spec_format_content(content)) == emitted_lines(content).push(seq![]),
{
    let ls = split_lines(content);
    lemma_split_lines_pieces(content);
    lemma_emitted_prefix(ls);
    let (ems, rem, j) = emitted_prefix(ls);
    lemma_drain(rem, j);
    let d = drain(rem, j);
    let all = emitted_lines(content);
    assert(all == ems + d);
    assert forall|i: int| 0 <= i < all.len() implies good_line(#[trigger] all[i]) by {
        if i < ems.len() {
            assert(all[i] == ems[i]);
        } else {
            assert(all[i] == d[i - ems.len()]);
        }
    }
    assert forall|i: int| 0 <= i < all.len() implies !(#[trigger] all[i]).contains('\n') by {
        assert(good_line(all[i]));
    }
    lemma_split_join_lines(all);
}

/// Formatting keeps every word of the text, in order: only the whitespace
/// between words changes, and no word is cut, lost or reordered
/// (`str::split_whitespace` yields the same words before and after).
pub proof fn lemma_format_keeps_words(content: Seq<char>)
    ensures
        words(spec_format_content(content)) == words(content),
{
    let ls = split_lines(content);
    lemma_split_lines_pieces(content);
    lemma_words_split_lines(content);
    lemma_emitted_prefix(ls);
    let (ems, rem, j) = emitted_prefix(ls);
    lemma_drain(rem, j);
    let d = drain(rem, j);
    lemma_words_join_lines(ems + d);
    lemma_words_lines_concat(ems, d);
}

/// Whether every line of `content` is at most `LINE_WIDTH` characters long.
pub open spec fn lines_already_fit(content: Seq<char>) -> bool {
    forall|i: int|
        0 <= i < split_lines(content).len() ==> (#[trigger] split_lines(content)[i]).len()
            <= LINE_WIDTH
}

proof fn lemma_emitted_prefix_fitting(lines: Seq<Seq<char>>)
    requires
        forall|i: int| 0 <= i < lines.len() ==> (#[trigger] lines[i]).len() <= LINE_WIDTH,
    ensures
        emitted_prefix(lines) == (lines, Seq::<char>::empty(), 0nat),
    decreases lines.len(),
{
    if lines.len() > 0 {
        let init = lines.drop_last();
        assert forall|i: int| 0 <= i < init.len() implies (#[trigger] init[i]).len()
            <= LINE_WIDTH by {
            assert(init[i] == lines[i]);
        }
        lemma_emitted_prefix_fitting(init);
        let l = lines[lines.len() - 1];
        assert(l == lines.last());
        assert(join_pending(Seq::<char>::empty(), l) == l);
        assert(spec_find_space(l, LINE_WIDTH as int) is None);
        assert(l.take(l.len() as int) =~= l);
        assert(init.push(l) =~= lines);
    }
}

/// Text whose lines are all at most `LINE_WIDTH` characters long comes out
/// unchanged, with one line feed added at its end: no line is broken,
/// joined or trimmed.
pub proof fn lemma_fitting_text_unchanged(content: Seq<char>)
    requires
        lines_already_fit(content),
    ensures
        spec_format_content(content) == content + seq!['\n'],
{
    let ls = split_lines(content);
    lemma_emitted_prefix_fitting(ls);
    assert(drain(Seq::<char>::empty(), 0) =~= Seq::<Seq<char>>::empty());
    assert(emitted_lines(content) =~= ls);
    crate::text::lemma_join_split_lines(content);
}

/// The position to break the line `cs` at, searching from `count`.
fn find_space_in(cs: &[char], count: usize) -> (r: Option<usize>)
    ensures
        r matches Some(i) ==> spec_find_space(cs@, count as int) == Some(i as int),
        r is None ==> spec_find_space(cs@, count as int) is None,
        r matches Some(i) ==> i < cs@.len(),
{
    proof {
        lemma_find_space(cs@, count as int);
    }
    if cs.len() <= count {
        return None;
    }
    // Find first space before count
    let mut index = count;
    while index > 0
        invariant
            index <= count < cs@.len(),
            last_space_down(cs@, count as int) == last_space_down(cs@, index as int),
        decreases index,
    {
        if cs[index] == ' ' {
            return Some(index);
        }
        index -= 1;
    }
    // Find first space after count
    let mut index = count;
    let len = cs.len();
    while index < len
        invariant
            count <= index <= len,
            len == cs@.len(),
            last_space_down(cs@, count as int) is None,
            first_space_up(cs@, count as int) == first_space_up(cs@, index as int),
        decreases len - index,
    {
        if cs[index] == ' ' {
            return Some(index);
        }
        index += 1;
    }
    None
}

/// Finds where to break the line `l` so that it fits in `count` characters.
///
/// A line of at most `count` characters is not broken. Otherwise the result is
/// the last space at a position in `1..=count`, or if there is none, the
/// first space at or after `count`, or `None` if there is no space there either.
pub fn find_space_from(l: &str, count: usize) -> (r: Option<usize>)
    ensures
        r matches Some(i) ==> spec_find_space(l@, count as int) == Some(i as int),
        r is None ==> spec_find_space(l@, count as int) is None,
        r matches Some(i) ==> count < l@.len() && i < l@.len() && l@[i as int] == ' ',
        r matches Some(i) ==> i >= first_break_position(count as int),
        r matches Some(i) ==> (i <= count ==> forall|m: int| i < m <= count ==> l@[m] != ' '),
        r matches Some(i) ==> (i > count ==> forall|m: int|
            first_break_position(count as int) <= m < i ==> l@[m] != ' '),
        r is None ==> l@.len() <= count || forall|m: int|
            first_break_position(count as int) <= m < l@.len() ==> l@[m] != ' ',
{
    let cs = str_chars(l);
    let r = find_space_in(cs.as_slice(), count);
    proof {
        lemma_find_space(l@, count as int);
    }
    r
}

/// Splits the line `l` after the space where it is to be broken to fit in
/// `count` characters (see `find_space_from`): the head keeps the space and
/// the tail is the rest. A line that is not broken is returned whole.
pub fn line_split(l: &str, count: usize) -> (r: (&str, Option<&str>))
    ensures
        r.0@ == spec_line_split(l@, count as int).0,
        r.1 matches Some(t) ==> spec_line_split(l@, count as int).1 == Some(t@),
        r.1 is None ==> spec_line_split(l@, count as int).1 is None,
        r.1 matches Some(t) ==> r.0@ + t@ == l@ && r.0@.last() == ' ',
        r.1 is None ==> r.0@ == l@,
        r.1 matches Some(t) ==> spec_find_space(l@, count as int) == Some(r.0@.len() - 1),
        r.1 is None ==> spec_find_space(l@, count as int) is None,
{
    if let Some(s) = find_space_from(l, count) {
        let len = l.unicode_len();
        assert(l@.subrange(0, s + 1) =~= l@.take(s + 1));
        assert(l@.subrange(s + 1, l@.len() as int) =~= l@.skip(s + 1));
        assert(l@.take(s + 1) + l@.skip(s + 1) =~= l@);
        return (l.substring_char(0, s + 1), Some(l.substring_char(s + 1, len)));
    }
    (l, None)
}

/// One formatter step on the line `line`, whose last `j` characters are
/// spaces that the formatter put there.
fn format_step(line: &[char], j: usize) -> (r: (Vec<char>, Vec<char>, usize))
    requires
        ends_with_spaces(line@, j as nat),
    ensures
        r.0@ == fmt_step(line@, j as nat).0,
        r.1@ == fmt_step(line@, j as nat).1,
        r.2 == fmt_step(line@, j as nat).2,
        ends_with_spaces(r.1@, r.2 as nat),
{
    proof {
        lemma_step(line@, j as nat);
    }
    let n = line.len();
    match find_space_in(line, LINE_WIDTH) {
        Some(s) => {
            let keep = if s < n - j {
                s
            } else {
                n - j
            };
            let emitted = chars_range(line, 0, keep);
            let tail = chars_range(line, s + 1, n);
            assert(tail@ =~= line@.skip(s + 1));
            let rest = trim_start_chars(tail.as_slice());
            assert(emitted@ =~= line@.take(keep as int));
            let k = if rest.len() == 0 || s >= n - j {
                0
            } else {
                j
            };
            (emitted, rest, k)
        },
        None => {
            let emitted = chars_range(line, 0, n - j);
            assert(emitted@ =~= line@.take(n - j));
            (emitted, Vec::new(), 0)
        },
    }
}

/// Re-wraps `content` to lines of at most `LINE_WIDTH` characters.
///
/// Each input line (the text between line feeds) is first joined, with a
/// space, to whatever was carried over from the line before. If the result
/// is too long it is broken at a space (see `line_split`): the head is
/// emitted without the break space, and the tail, without leading
/// whitespace, is carried over. A line that is not broken is emitted as it
/// is. Spaces that the formatter itself put at the end of an emitted line
/// (the space that joins carried-over text to an empty input line) are left
/// out; the text's own whitespace is kept. After the last input line,
/// carried-over text is emitted the same way until none is left. Every
/// emitted line ends with a line feed.
pub fn format_content(content: &str) -> (s: String)
    ensures
        s@ == spec_format_content(content@),
{
    let cs = str_chars(content);
    let lines = split_lines_chars(cs.as_slice());
    let ghost ls = split_lines(content@);
    let mut out: Vec<char> = Vec::new();
    let mut remaining: Vec<char> = Vec::new();
    let mut spaces: usize = 0;
    assert(ls.take(0) =~= Seq::<Seq<char>>::empty());
    for i in 0..lines.len()
        invariant
            lines@.len() == ls.len(),
            forall|j: int| 0 <= j < lines@.len() ==> (#[trigger] lines@[j])@ == ls[j],
            out@ == join_lines(emitted_prefix(ls.take(i as int)).0),
            remaining@ == emitted_prefix(ls.take(i as int)).1,
            spaces == emitted_prefix(ls.take(i as int)).2,
            ends_with_spaces(remaining@, spaces as nat),
    {
        let cur = &lines[i];
        let line = if remaining.len() == 0 {
            chars_range(cur.as_slice(), 0, cur.len())
        } else {
            let mut joined = chars_range(remaining.as_slice(), 0, remaining.len());
            joined.push(' ');
            extend_chars(&mut joined, cur.as_slice());
            joined
        };
        assert(line@ =~= join_pending(remaining@, ls[i as int]));
        let line_len = line.len();
        let joined_count = if remaining.len() > 0 && cur.len() == 0 {
            spaces + 1
        } else {
            0
        };
        assert(joined_count == joined_spaces(remaining@, spaces as nat, ls[i as int]));
        proof {
            lemma_joined_spaces(remaining@, spaces as nat, ls[i as int]);
        }
        let (emitted, carried, k) = format_step(line.as_slice(), joined_count);
        let ghost old_out = out@;
        extend_chars(&mut out, emitted.as_slice());
        out.push('\n');
        remaining = carried;
        spaces = k;
        proof {
            let pre = ls.take(i as int);
            let next = ls.take(i + 1);
            assert(next.drop_last() =~= pre);
            assert(next.last() == ls[i as int]);
            let ems = emitted_prefix(pre).0;
            let ems2 = emitted_prefix(next).0;
            assert(ems2 == ems.push(emitted@));
            assert(ems2.drop_last() =~= ems);
            assert(ems2.last() == emitted@);
            assert(join_lines(ems2) == join_lines(ems) + emitted@ + seq!['\n']);
            assert(out@ =~= old_out + emitted@ + seq!['\n']);
        }
    }
    assert(ls.take(lines@.len() as int) =~= ls);
    let ghost ems = emitted_prefix(ls).0;
    proof {
        lemma_join_lines_concat(ems, drain(remaining@, spaces as nat));
    }
    while remaining.len() > 0
        invariant
            out@ + join_lines(drain(remaining@, spaces as nat)) == spec_format_content(content@),
            ends_with_spaces(remaining@, spaces as nat),
        decreases remaining@.len(),
    {
        let ghost before = remaining@;
        let ghost before_spaces = spaces as nat;
        proof {
            lemma_step_shrinks(before, before_spaces);
        }
        let (emitted, carried, k) = format_step(remaining.as_slice(), spaces);
        extend_chars(&mut out, emitted.as_slice());
        out.push('\n');
        remaining = carried;
        spaces = k;
        proof {
            let e = fmt_step(before, before_spaces).0;
            let d = drain(remaining@, spaces as nat);
            assert(drain(before, before_spaces) == seq![e] + d);
            lemma_join_lines_concat(seq![e], d);
            assert(seq![e].drop_last() =~= Seq::<Seq<char>>::empty());
            assert(join_lines(seq![e]) =~= e + seq!['\n']) by {
                assert(join_lines(Seq::<Seq<char>>::empty()) =~= Seq::<char>::empty());
            }
        }
    }
    assert(join_lines(drain(remaining@, spaces as nat)) =~= Seq::<char>::empty());
    string_from_chars(out.as_slice())
}

} // verus!
