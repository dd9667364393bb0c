//! Character-level helpers shared by the formatter and the request logic.

use vstd::prelude::*;

verus! {

broadcast use vstd::string::group_string_axioms;

/// Unicode `White_Space`, the property that `char::is_whitespace` tests and
/// that `str::trim_start` strips.
pub open spec fn is_ws(c: char) -> bool {
    ||| c == ' '
    ||| ('\u{9}' <= c && c <= '\u{d}')
    ||| c == '\u{85}'
    ||| c == '\u{a0}'
    ||| c == '\u{1680}'
    ||| ('\u{2000}' <= c && c <= '\u{200a}')
    ||| c == '\u{2028}'
    ||| c == '\u{2029}'
    ||| c == '\u{202f}'
    ||| c == '\u{205f}'
    ||| c == '\u{3000}'
}

/// Whether `c` is a whitespace character.
pub fn is_whitespace(c: char) -> (b: bool)
    ensures
        b == is_ws(c),
{
    c == ' ' || ('\u{9}' <= c && c <= '\u{d}') || c == '\u{85}' || c == '\u{a0}' || c
        == '\u{1680}' || ('\u{2000}' <= c && c <= '\u{200a}') || c == '\u{2028}' || c
        == '\u{2029}' || c == '\u{202f}' || c == '\u{205f}' || c == '\u{3000}'
}

/// `s` without its leading whitespace.
pub open spec fn trim_start(s: Seq<char>) -> Seq<char>
    decreases s.len(),
{
    if s.len() > 0 && is_ws(s[0]) {
        trim_start(s.drop_first())
    } else {
        s
    }
}

/// The words of `s`, as `str::split_whitespace` yields them: the maximal
/// runs of characters that are not whitespace, in order.
pub open spec fn words(s: Seq<char>) -> Seq<Seq<char>>
    decreases s.len(),
{
    if s.len() == 0 {
        seq![]
    } else {
        let d = s.drop_last();
        let c = s.last();
        let w = words(d);
        if is_ws(c) {
            w
        } else if d.len() > 0 && !is_ws(d.last()) {
            w.update(w.len() - 1, w.last().push(c))
        } else {
            w.push(seq![c])
        }
    }
}

/// The pieces of `s` between line feeds, as `str::split("\n")` yields them:
/// one more piece than `s` has line feeds.
pub open spec fn split_lines(s: Seq<char>) -> Seq<Seq<char>>
    decreases s.len(),
{
    if s.len() == 0 {
        seq![seq![]]
    } else {
        let p = split_lines(s.drop_last());
        if s.last() == '\n' {
            p.push(seq![])
        } else {
            p.update(p.len() - 1, p.last().push(s.last()))
        }
    }
}

/// Each line followed by a line feed, all concatenated.
pub open spec fn join_lines(ls: Seq<Seq<char>>) -> Seq<char>
    decreases ls.len(),
{
    if ls.len() == 0 {
        seq![]
    } else {
        join_lines(ls.drop_last()) + ls.last() + seq!['\n']
    }
}

/// The words of all lines, in order.
pub open spec fn words_lines(ls: Seq<Seq<char>>) -> Seq<Seq<char>>
    decreases ls.len(),
{
    if ls.len() == 0 {
        seq![]
    } else {
        words_lines(ls.drop_last()) + words(ls.last())
    }
}

pub proof fn lemma_trim_start(s: Seq<char>)
    ensures
        trim_start(s).len() <= s.len(),
        trim_start(s) == s.skip(s.len() - trim_start(s).len()),
        forall|i: int| 0 <= i < s.len() - trim_start(s).len() ==> is_ws(#[trigger] s[i]),
        trim_start(s).len() > 0 ==> !is_ws(trim_start(s)[0]),
    decreases s.len(),
{
    if s.len() > 0 && is_ws(s[0]) {
        lemma_trim_start(s.drop_first());
        let t = trim_start(s.drop_first());
        assert(s.drop_first().skip(s.drop_first().len() - t.len()) =~= s.skip(s.len() - t.len()));
        assert forall|i: int| 0 <= i < s.len() - t.len() implies is_ws(#[trigger] s[i]) by {
            if i > 0 {
                assert(s[i] == s.drop_first()[i - 1]);
            }
        }
    } else {
        assert(s.skip(0) =~= s);
    }
}

/// A text that ends in a character that is not whitespace has a word.
proof fn lemma_words_nonempty(s: Seq<char>)
    requires
        s.len() > 0,
        !is_ws(s.last()),
    ensures
        words(s).len() > 0,
    decreases s.len(),
{
    let d = s.drop_last();
    if d.len() > 0 && !is_ws(d.last()) {
        lemma_words_nonempty(d);
    }
}

/// Two texts that meet at whitespace (or where one is empty) have, together,
/// the words of the first followed by the words of the second.
pub proof fn lemma_words_concat(a: Seq<char>, b: Seq<char>)
    requires
        a.len() == 0 || b.len() == 0 || is_ws(a.last()) || is_ws(b[0]),
    ensures
        words(a + b) == words(a) + words(b),
    decreases b.len(),
{
    if b.len() == 0 {
        assert(a + b =~= a);
        assert(words(b) =~= Seq::<Seq<char>>::empty());
        assert(words(a) + words(b) =~= words(a));
    } else {
        let b0 = b.drop_last();
        let c = b.last();
        if b0.len() > 0 {
            assert(b0[0] == b[0]);
        }
        lemma_words_concat(a, b0);
        let d = a + b0;
        assert((a + b).drop_last() =~= d);
        assert((a + b).last() == c);
        let w = words(d);
        if is_ws(c) {
        } else if d.len() > 0 && !is_ws(d.last()) {
            if b0.len() > 0 {
                assert(d.last() == b0.last());
                lemma_words_nonempty(b0);
                let wb = words(b0);
                assert(words(b) == wb.update(wb.len() - 1, wb.last().push(c)));
                assert(w.update(w.len() - 1, w.last().push(c)) =~= words(a) + wb.update(
                    wb.len() - 1,
                    wb.last().push(c),
                ));
            } else {
                assert(d =~= a);
                assert(b[0] == c);
            }
        } else {
            if b0.len() > 0 {
                assert(d.last() == b0.last());
            }
            assert(words(b) == words(b0).push(seq![c]));
            assert(w.push(seq![c]) =~= words(a) + words(b0).push(seq![c]));
        }
    }
}

/// A sequence of whitespace characters has no words.
pub proof fn lemma_words_blank(s: Seq<char>)
    requires
        forall|i: int| 0 <= i < s.len() ==> is_ws(#[trigger] s[i]),
    ensures
        words(s) == Seq::<Seq<char>>::empty(),
    decreases s.len(),
{
    if s.len() > 0 {
        assert(s.last() == s[s.len() - 1]);
        assert forall|i: int| 0 <= i < s.drop_last().len() implies is_ws(
            #[trigger] s.drop_last()[i],
        ) by {
            assert(s.drop_last()[i] == s[i]);
        }
        lemma_words_blank(s.drop_last());
    }
}

pub proof fn lemma_words_trim_start(s: Seq<char>)
    ensures
        words(trim_start(s)) == words(s),
{
    lemma_trim_start(s);
    let k = s.len() - trim_start(s).len();
    let h = s.take(k);
    let t = s.skip(k);
    assert(s =~= h + t);
    assert forall|i: int| 0 <= i < h.len() implies is_ws(#[trigger] h[i]) by {
        assert(h[i] == s[i]);
    }
    if h.len() > 0 {
        assert(h.last() == h[h.len() - 1]);
    }
    lemma_words_concat(h, t);
    lemma_words_blank(h);
    assert(Seq::<Seq<char>>::empty() + words(t) =~= words(t));
}

/// The pieces of a split are at least one, and hold no line feed.
pub proof fn lemma_split_lines_pieces(s: Seq<char>)
    ensures
        split_lines(s).len() >= 1,
        forall|i: int|
            0 <= i < split_lines(s).len() ==> !(#[trigger] split_lines(s)[i]).contains('\n'),
    decreases s.len(),
{
    if s.len() == 0 {
        let p = split_lines(s);
        assert forall|i: int| 0 <= i < p.len() implies !(#[trigger] p[i]).contains('\n') by {
            assert(p[i] =~= seq![]);
        }
    } else {
        let d = s.drop_last();
        let c = s.last();
        lemma_split_lines_pieces(d);
        let p = split_lines(d);
        if c == '\n' {
            let q = p.push(seq![]);
            assert forall|i: int| 0 <= i < q.len() implies !(#[trigger] q[i]).contains('\n') by {
                if i < p.len() {
                    assert(q[i] == p[i]);
                } else {
                    assert(q[i] =~= seq![]);
                }
            }
        } else {
            let last = p.last().push(c);
            let q = p.update(p.len() - 1, last);
            assert forall|i: int| 0 <= i < q.len() implies !(#[trigger] q[i]).contains('\n') by {
                if i < p.len() - 1 {
                    assert(q[i] == p[i]);
                } else {
                    assert(q[i] == last);
                    assert(!p[p.len() - 1].contains('\n'));
                    if last.contains('\n') {
                        let j = choose|j: int| 0 <= j < last.len() && last[j] == '\n';
                        if j < p.last().len() {
                            assert(p.last()[j] == '\n');
                        }
                    }
                }
            }
        }
    }
}

/// A line feed alone has no words.
pub proof fn lemma_words_newline()
    ensures
        words(seq!['\n']) == Seq::<Seq<char>>::empty(),
{
    assert(is_ws('\n'));
    lemma_words_blank(seq!['\n']);
}

/// Joining lines with line feeds keeps the words of each line apart.
pub proof fn lemma_words_join_lines(ls: Seq<Seq<char>>)
    ensures
        words(join_lines(ls)) == words_lines(ls),
    decreases ls.len(),
{
    if ls.len() > 0 {
        lemma_words_join_lines(ls.drop_last());
        let a = join_lines(ls.drop_last());
        let l = ls.last();
        let nl = seq!['\n'];
        assert(is_ws('\n'));
        assert(join_lines(ls) =~= a + (l + nl));
        if a.len() > 0 {
            assert(a.last() == '\n') by {
                let x = ls.drop_last();
                assert(a == join_lines(x.drop_last()) + x.last() + seq!['\n']);
            }
        }
        lemma_words_concat(a, l + nl);
        assert((l + nl)[(l + nl).len() - 1] == '\n');
        if l.len() > 0 {
            lemma_words_concat(l, nl);
        } else {
            assert(l + nl =~= nl);
        }
        lemma_words_newline();
        assert(words(l) + Seq::<Seq<char>>::empty() =~= words(l));
        if l.len() == 0 {
            assert(words(l) =~= Seq::<Seq<char>>::empty());
        }
    } else {
        assert(words(join_lines(ls)) =~= Seq::<Seq<char>>::empty());
    }
}

pub proof fn lemma_join_lines_concat(a: Seq<Seq<char>>, b: Seq<Seq<char>>)
    ensures
        join_lines(a + b) == join_lines(a) + join_lines(b),
    decreases b.len(),
{
    if b.len() == 0 {
        assert(a + b =~= a);
        assert(join_lines(a) + join_lines(b) =~= join_lines(a));
    } else {
        lemma_join_lines_concat(a, b.drop_last());
        assert((a + b).drop_last() =~= a + b.drop_last());
        assert((a + b).last() == b.last());
        assert(join_lines(a) + join_lines(b.drop_last()) + b.last() + seq!['\n'] =~= join_lines(a)
            + (join_lines(b.drop_last()) + b.last() + seq!['\n']));
    }
}

pub proof fn lemma_words_lines_concat(a: Seq<Seq<char>>, b: Seq<Seq<char>>)
    ensures
        words_lines(a + b) == words_lines(a) + words_lines(b),
    decreases b.len(),
{
    if b.len() == 0 {
        assert(a + b =~= a);
        assert(words_lines(a) + words_lines(b) =~= words_lines(a));
    } else {
        lemma_words_lines_concat(a, b.drop_last());
        assert((a + b).drop_last() =~= a + b.drop_last());
        assert((a + b).last() == b.last());
        assert(words_lines(a) + words_lines(b.drop_last()) + words(b.last()) =~= words_lines(a)
            + (words_lines(b.drop_last()) + words(b.last())));
    }
}

/// Lines that hold no line feed are given back by splitting their join.
pub proof fn lemma_split_join_lines(ls: Seq<Seq<char>>)
    requires
        forall|i: int| 0 <= i < ls.len() ==> !(#[trigger] ls[i]).contains('\n'),
    ensures
        split_lines(join_lines(ls)) == ls.push(seq![]),
    decreases ls.len(),
{
    if ls.len() == 0 {
        assert(join_lines(ls) =~= Seq::<char>::empty());
        assert(ls.push(seq![]) =~= seq![seq![]]);
    } else {
        let init = ls.drop_last();
        assert forall|i: int| 0 <= i < init.len() implies !(#[trigger] init[i]).contains('\n') by {
            assert(init[i] == ls[i]);
        }
        lemma_split_join_lines(init);
        let last = ls.last();
        assert(!ls[ls.len() - 1].contains('\n'));
        lemma_split_append_line(join_lines(init), init.push(seq![]), last);
        let j = join_lines(init) + last;
        assert(join_lines(ls) == j + seq!['\n']);
        assert((j + seq!['\n']).drop_last() =~= j);
        let p = init.push(seq![]).update(init.len() as int, last);
        assert(p =~= ls);
    }
}

/// Appending newline-free characters extends the last piece of a split.
proof fn lemma_split_append_line(s: Seq<char>, p: Seq<Seq<char>>, t: Seq<char>)
    requires
        split_lines(s) == p,
        p.len() >= 1,
        !t.contains('\n'),
    ensures
        split_lines(s + t) == p.update(p.len() - 1, p.last() + t),
    decreases t.len(),
{
    if t.len() == 0 {
        assert(s + t =~= s);
        assert(p.last() + t =~= p.last());
        assert(p.update(p.len() - 1, p.last()) =~= p);
    } else {
        let t0 = t.drop_last();
        assert(!t0.contains('\n')) by {
            if t0.contains('\n') {
                let j = choose|j: int| 0 <= j < t0.len() && t0[j] == '\n';
                assert(t[j] == '\n');
            }
        }
        lemma_split_append_line(s, p, t0);
        assert((s + t).drop_last() =~= s + t0);
        assert((s + t).last() == t.last());
        assert(t.last() == t[t.len() - 1]);
        let q = p.update(p.len() - 1, p.last() + t0);
        assert(q.last() == p.last() + t0);
        assert(q.update(q.len() - 1, q.last().push(t.last())) =~= p.update(
            p.len() - 1,
            p.last() + t,
        )) by {
            assert((p.last() + t0).push(t.last()) =~= p.last() + t);
        }
    }
}

/// Splitting at line feeds and joining the pieces with line feeds gives the
/// text back with one more line feed at its end.
pub proof fn lemma_join_split_lines(s: Seq<char>)
    ensures
        join_lines(split_lines(s)) == s + seq!['\n'],
    decreases s.len(),
{
    if s.len() == 0 {
        let p = split_lines(s);
        assert(p.drop_last() =~= Seq::<Seq<char>>::empty());
        assert(p.last() =~= Seq::<char>::empty());
        assert(join_lines(p.drop_last()) =~= Seq::<char>::empty());
        assert(join_lines(p) =~= s + seq!['\n']);
    } else {
        let d = s.drop_last();
        let c = s.last();
        lemma_join_split_lines(d);
        lemma_split_lines_pieces(d);
        let p = split_lines(d);
        if c == '\n' {
            let q = p.push(seq![]);
            assert(q.drop_last() =~= p);
            assert(join_lines(q) =~= d + seq!['\n'] + seq!['\n']);
            assert(d + seq!['\n'] =~= s);
        } else {
            let q = p.update(p.len() - 1, p.last().push(c));
            assert(q.drop_last() =~= p.drop_last());
            assert(q.last() == p.last().push(c));
            assert(join_lines(p) == join_lines(p.drop_last()) + p.last() + seq!['\n']);
            assert(join_lines(p.drop_last()) + p.last() =~= d) by {
                assert(join_lines(p.drop_last()) + p.last() + seq!['\n'] == d + seq!['\n']);
                assert((join_lines(p.drop_last()) + p.last() + seq!['\n']).drop_last()
                    =~= join_lines(p.drop_last()) + p.last());
                assert((d + seq!['\n']).drop_last() =~= d);
            }
            assert(join_lines(q) =~= d.push(c) + seq!['\n']);
            assert(d.push(c) =~= s);
        }
    }
}

/// A text has the words of its pieces between line feeds.
pub proof fn lemma_words_split_lines(s: Seq<char>)
    ensures
        words_lines(split_lines(s)) == words(s),
{
    lemma_join_split_lines(s);
    lemma_words_join_lines(split_lines(s));
    assert(is_ws('\n'));
    lemma_words_concat(s, seq!['\n']);
    lemma_words_newline();
    assert(words(s) + Seq::<Seq<char>>::empty() =~= words(s));
}

/// Calls `String::push`, which appends one character to the end of a string.
#[verifier::external_body]
fn push_char(s: &mut String, c: char)
    ensures
        final(s)@ == old(s)@.push(c),
{
    s.push(c);
}

/// The characters of `s`, in order.
pub fn str_chars(s: &str) -> (v: Vec<char>)
    ensures
        v@ == s@,
{
    let mut v: Vec<char> = Vec::new();
    for c in it: s.chars()
        invariant
            it.seq() == s@,
            v@ == it.seq().take(it.index() as int),
    {
        v.push(c);
    }
    v
}

/// The string made of the characters `cs`, in order.
pub fn string_from_chars(cs: &[char]) -> (s: String)
    ensures
        s@ == cs@,
{
    let mut s = String::new();
    for i in 0..cs.len()
        invariant
            s@ == cs@.take(i as int),
    {
        push_char(&mut s, cs[i]);
        assert(cs@.take(i as int).push(cs@[i as int]) =~= cs@.take(i + 1));
    }
    assert(cs@.take(cs@.len() as int) =~= cs@);
    s
}

/// The characters `cs[from..to]`.
pub fn chars_range(cs: &[char], from: usize, to: usize) -> (v: Vec<char>)
    requires
        from <= to <= cs@.len(),
    ensures
        v@ == cs@.subrange(from as int, to as int),
{
    let mut v: Vec<char> = Vec::new();
    for i in from..to
        invariant
            to <= cs@.len(),
            v@ == cs@.subrange(from as int, i as int),
    {
        v.push(cs[i]);
        assert(cs@.subrange(from as int, i as int).push(cs@[i as int]) =~= cs@.subrange(
            from as int,
            i + 1,
        ));
    }
    v
}

/// Appends the characters `b` to `a`.
pub fn extend_chars(a: &mut Vec<char>, b: &[char])
    ensures
        final(a)@ == old(a)@ + b@,
{
    for i in 0..b.len()
        invariant
            a@ == old(a)@ + b@.take(i as int),
    {
        a.push(b[i]);
        assert(old(a)@ + b@.take(i as int) + seq![b@[i as int]] =~= old(a)@ + b@.take(i + 1));
    }
    assert(b@.take(b@.len() as int) =~= b@);
}

/// Whether two strings hold the same characters.
pub fn str_eq(a: &str, b: &str) -> (r: bool)
    ensures
        r == (a@ == b@),
{
    let x = str_chars(a);
    let y = str_chars(b);
    if x.len() != y.len() {
        return false;
    }
    for i in 0..x.len()
        invariant
            x@ == a@,
            y@ == b@,
            x@.len() == y@.len(),
            forall|j: int| 0 <= j < i ==> x@[j] == y@[j],
    {
        if x[i] != y[i] {
            return false;
        }
    }
    assert(a@ =~= b@);
    true
}

/// `s` without its leading whitespace.
pub fn trim_start_chars(s: &[char]) -> (t: Vec<char>)
    ensures
        t@ == trim_start(s@),
{
    let mut k: usize = 0;
    assert(s@.skip(0) =~= s@);
    while k < s.len() && is_whitespace(s[k])
        invariant
            k <= s@.len(),
            trim_start(s@.skip(k as int)) == trim_start(s@),
        decreases s@.len() - k,
    {
        assert(s@.skip(k as int).drop_first() =~= s@.skip(k + 1));
        k = k + 1;
    }
    assert(s@.skip(k as int) =~= s@.subrange(k as int, s@.len() as int));
    chars_range(s, k, s.len())
}

/// The pieces of `s` between line feeds.
pub fn split_lines_chars(s: &[char]) -> (ls: Vec<Vec<char>>)
    ensures
        ls@.len() == split_lines(s@).len(),
        forall|i: int| 0 <= i < ls@.len() ==> (#[trigger] ls@[i])@ == split_lines(s@)[i],
{
    let mut ls: Vec<Vec<char>> = Vec::new();
    let mut cur: Vec<char> = Vec::new();
    for i in 0..s.len()
        invariant
            ls@.len() + 1 == split_lines(s@.take(i as int)).len(),
            forall|j: int| 0 <= j < ls@.len() ==> (#[trigger] ls@[j])@ == split_lines(s@.take(i as int))[j],
            cur@ == split_lines(s@.take(i as int)).last(),
    {
        let ghost p = split_lines(s@.take(i as int));
        assert(s@.take(i + 1).drop_last() =~= s@.take(i as int));
        assert(s@.take(i + 1).last() == s@[i as int]);
        if s[i] == '\n' {
            let done = cur;
            ls.push(done);
            cur = Vec::new();
            assert(cur@ =~= seq![]);
        } else {
            cur.push(s[i]);
        }
    }
    assert(s@.take(s@.len() as int) =~= s@);
    ls.push(cur);
    ls
}

} // verus!
