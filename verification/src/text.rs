//! Whitespace, trimming and the splitting of text into lines, over the
//! characters of a string.
use vstd::prelude::*;
use vstd::string::StrSliceExecFns;

verus! {

/// Unicode's `White_Space` property, which `char::is_whitespace` follows.
pub open spec fn is_white_space(c: char) -> bool {
    ||| '\u{9}' <= c <= '\u{d}'
    ||| c == ' '
    ||| c == '\u{85}'
    ||| c == '\u{a0}'
    ||| c == '\u{1680}'
    ||| '\u{2000}' <= c <= '\u{200a}'
    ||| c == '\u{2028}'
    ||| c == '\u{2029}'
    ||| c == '\u{202f}'
    ||| c == '\u{205f}'
    ||| c == '\u{3000}'
}

/// `s` without its leading whitespace.
pub open spec fn trim_start_chars(s: Seq<char>) -> Seq<char>
    decreases s.len(),
{
    if s.len() > 0 && is_white_space(s[0]) {
        trim_start_chars(s.drop_first())
    } else {
        s
    }
}

/// `s` without its trailing whitespace.
pub open spec fn trim_end_chars(s: Seq<char>) -> Seq<char>
    decreases s.len(),
{
    if s.len() > 0 && is_white_space(s.last()) {
        trim_end_chars(s.drop_last())
    } else {
        s
    }
}

/// `s` without its leading and trailing whitespace.
pub open spec fn trim_chars(s: Seq<char>) -> Seq<char> {
    trim_end_chars(trim_start_chars(s))
}

/// The pieces of `s` between line feeds, in order; there is one more piece
/// than there are line feeds.
pub open spec fn split_newlines(s: Seq<char>) -> Seq<Seq<char>>
    decreases s.len(),
{
    if s.len() == 0 {
        seq![Seq::empty()]
    } else {
        let prev = split_newlines(s.drop_last());
        if s.last() == '\n' {
            prev.push(Seq::empty())
        } else {
            prev.update(prev.len() - 1, prev.last().push(s.last()))
        }
    }
}

/// The pieces, each trimmed, that are not empty once trimmed, in order.
pub open spec fn keep_nonblank(pieces: Seq<Seq<char>>) -> Seq<Seq<char>>
    decreases pieces.len(),
{
    if pieces.len() == 0 {
        Seq::empty()
    } else {
        let prev = keep_nonblank(pieces.drop_last());
        let t = trim_chars(pieces.last());
        if t.len() > 0 {
            prev.push(t)
        } else {
            prev
        }
    }
}

/// The non-blank lines of `s`, each trimmed. A carriage return before a line
/// feed is whitespace, so it is trimmed away with the rest.
pub open spec fn nonblank_lines_of(s: Seq<char>) -> Seq<Seq<char>> {
    keep_nonblank(split_newlines(s))
}

/// The views of a vector of strings.
pub open spec fn views_of(v: Seq<String>) -> Seq<Seq<char>> {
    v.map_values(|x: String| x@)
}

proof fn lemma_split_newlines_nonempty(s: Seq<char>)
    ensures
        split_newlines(s).len() >= 1,
    decreases s.len(),
{
    if s.len() > 0 {
        lemma_split_newlines_nonempty(s.drop_last());
    }
}

/// Text without a line feed, written after `s`, extends the last piece of `s`.
proof fn lemma_split_newlines_extend(s: Seq<char>, t: Seq<char>)
    requires
        !t.contains('\n'),
    ensures
        split_newlines(s + t) == split_newlines(s).update(
            split_newlines(s).len() - 1,
            split_newlines(s).last() + t,
        ),
    decreases t.len(),
{
    lemma_split_newlines_nonempty(s);
    let p = split_newlines(s);
    if t.len() == 0 {
        assert(s + t =~= s);
        assert(p.last() + t =~= p.last());
        assert(p.update(p.len() - 1, p.last() + t) =~= p);
    } else {
        let t0 = t.drop_last();
        assert(!t0.contains('\n')) by {
            if t0.contains('\n') {
                let k = choose|k: int| 0 <= k < t0.len() && t0[k] == '\n';
                assert(t[k] == '\n');
            }
        }
        lemma_split_newlines_extend(s, t0);
        assert((s + t).drop_last() =~= s + t0);
        assert((s + t).last() == t.last());
        assert(t.last() != '\n') by {
            if t.last() == '\n' {
                assert(t[t.len() - 1] == '\n');
            }
        }
        let q = split_newlines(s + t0);
        assert((p.last() + t0).push(t.last()) =~= p.last() + t);
        assert(q.update(q.len() - 1, q.last().push(t.last())) =~= p.update(
            p.len() - 1,
            p.last() + t,
        ));
    }
}

/// A line feed after `s` starts a new, empty piece.
proof fn lemma_split_newlines_break(s: Seq<char>)
    ensures
        split_newlines(s + seq!['\n']) == split_newlines(s).push(Seq::empty()),
{
    let t = s + seq!['\n'];
    assert(t.drop_last() =~= s);
    assert(t.last() == '\n');
}

/// Pieces without line feeds, joined by line feeds, split back into the
/// same pieces.
pub proof fn lemma_split_newlines_of_joined(a: Seq<char>, b: Seq<char>, c: Seq<char>)
    requires
        !a.contains('\n'),
        !b.contains('\n'),
        !c.contains('\n'),
    ensures
        split_newlines(a) == seq![a],
        split_newlines(a + seq!['\n'] + b) == seq![a, b],
        split_newlines(a + seq!['\n'] + b + seq!['\n'] + c) == seq![a, b, c],
{
    let e = Seq::<char>::empty();
    assert(split_newlines(e) == seq![e]);
    lemma_split_newlines_extend(e, a);
    assert(e + a =~= a);
    assert(seq![e].update(0, e + a) =~= seq![a]);
    lemma_split_newlines_break(a);
    lemma_split_newlines_extend(a + seq!['\n'], b);
    assert(seq![a, e].update(1, e + b) =~= seq![a, b]);
    assert(seq![a].push(e) =~= seq![a, e]);
    lemma_split_newlines_break(a + seq!['\n'] + b);
    lemma_split_newlines_extend(a + seq!['\n'] + b + seq!['\n'], c);
    assert(seq![a, b].push(e) =~= seq![a, b, e]);
    assert(seq![a, b, e].update(2, e + c) =~= seq![a, b, c]);
}

/// The lines joined into one text, a line feed between each two.
pub open spec fn join_lines(lines: Seq<Seq<char>>) -> Seq<char>
    decreases lines.len(),
{
    if lines.len() == 0 {
        Seq::empty()
    } else if lines.len() == 1 {
        lines[0]
    } else {
        join_lines(lines.drop_last()) + seq!['\n'] + lines.last()
    }
}

/// Whether no line holds a line feed.
pub open spec fn no_line_feeds(lines: Seq<Seq<char>>) -> bool {
    forall|k: int| 0 <= k < lines.len() ==> !(#[trigger] lines[k]).contains('\n')
}

/// Whether every character of `s` is whitespace.
pub open spec fn all_white(s: Seq<char>) -> bool {
    forall|k: int| 0 <= k < s.len() ==> is_white_space(#[trigger] s[k])
}

/// Lines without line feeds, joined, split back into the same lines.
pub proof fn lemma_split_join_lines(lines: Seq<Seq<char>>)
    requires
        lines.len() >= 1,
        no_line_feeds(lines),
    ensures
        split_newlines(join_lines(lines)) == lines,
    decreases lines.len(),
{
    let e = Seq::<char>::empty();
    if lines.len() == 1 {
        assert(!lines[0].contains('\n'));
        lemma_split_newlines_extend(e, lines[0]);
        assert(e + lines[0] =~= lines[0]);
        assert(split_newlines(e) == seq![e]);
        assert(seq![e].update(0, e + lines[0]) =~= lines);
    } else {
        let init = lines.drop_last();
        assert(no_line_feeds(init)) by {
            assert forall|k: int| 0 <= k < init.len() implies !(#[trigger] init[k]).contains('\n') by {
                assert(init[k] == lines[k]);
            }
        }
        lemma_split_join_lines(init);
        let j = join_lines(init);
        lemma_split_newlines_break(j);
        assert(!lines.last().contains('\n')) by {
            assert(lines.last() == lines[lines.len() - 1]);
        }
        lemma_split_newlines_extend(j + seq!['\n'], lines.last());
        assert(e + lines.last() =~= lines.last());
        assert(init.push(e).update(init.len() as int, e + lines.last()) =~= lines);
    }
}

/// The non-blank lines of joined lines are the kept lines.
pub proof fn lemma_nonblank_lines_of_joined(lines: Seq<Seq<char>>)
    requires
        lines.len() >= 1,
        no_line_feeds(lines),
    ensures
        nonblank_lines_of(join_lines(lines)) == keep_nonblank(lines),
{
    lemma_split_join_lines(lines);
}

/// A line that is blank once trimmed, put anywhere among the lines, is not kept.
pub proof fn lemma_keep_nonblank_insert_blank(lines: Seq<Seq<char>>, i: int, w: Seq<char>)
    requires
        0 <= i <= lines.len(),
        trim_chars(w).len() == 0,
    ensures
        keep_nonblank(lines.insert(i, w)) == keep_nonblank(lines),
    decreases lines.len(),
{
    let ins = lines.insert(i, w);
    if i == lines.len() {
        assert(ins.drop_last() =~= lines);
        assert(ins.last() == w);
    } else {
        let init = lines.drop_last();
        lemma_keep_nonblank_insert_blank(init, i, w);
        assert(ins.drop_last() =~= init.insert(i, w));
        assert(ins.last() == lines.last());
    }
}

proof fn lemma_trim_start_white_prefix(a: Seq<char>, y: Seq<char>)
    requires
        all_white(a),
    ensures
        trim_start_chars(a + y) == trim_start_chars(y),
    decreases a.len(),
{
    if a.len() == 0 {
        assert(a + y =~= y);
    } else {
        assert((a + y)[0] == a[0]);
        assert((a + y).drop_first() =~= a.drop_first() + y);
        assert(all_white(a.drop_first())) by {
            assert forall|k: int| 0 <= k < a.drop_first().len() implies is_white_space(
                #[trigger] a.drop_first()[k],
            ) by {
                assert(a.drop_first()[k] == a[k + 1]);
            }
        }
        lemma_trim_start_white_prefix(a.drop_first(), y);
    }
}

proof fn lemma_trim_start_white_suffix(x: Seq<char>, b: Seq<char>)
    requires
        all_white(b),
    ensures
        trim_start_chars(x).len() > 0 ==> trim_start_chars(x + b) == trim_start_chars(x) + b,
        trim_start_chars(x).len() == 0 ==> trim_start_chars(x + b).len() == 0,
    decreases x.len(),
{
    if x.len() == 0 {
        assert(x + b =~= b);
        assert(b =~= b + Seq::<char>::empty());
        lemma_trim_start_white_prefix(b, Seq::empty());
    } else if is_white_space(x[0]) {
        assert((x + b)[0] == x[0]);
        assert((x + b).drop_first() =~= x.drop_first() + b);
        lemma_trim_start_white_suffix(x.drop_first(), b);
    } else {
        assert((x + b)[0] == x[0]);
    }
}

proof fn lemma_trim_end_white_suffix(y: Seq<char>, b: Seq<char>)
    requires
        all_white(b),
    ensures
        trim_end_chars(y + b) == trim_end_chars(y),
    decreases b.len(),
{
    if b.len() == 0 {
        assert(y + b =~= y);
    } else {
        assert((y + b).last() == b.last());
        assert(is_white_space(b[b.len() - 1]));
        assert((y + b).drop_last() =~= y + b.drop_last());
        assert(all_white(b.drop_last())) by {
            assert forall|k: int| 0 <= k < b.drop_last().len() implies is_white_space(
                #[trigger] b.drop_last()[k],
            ) by {
                assert(b.drop_last()[k] == b[k]);
            }
        }
        lemma_trim_end_white_suffix(y, b.drop_last());
    }
}

/// Whitespace added before and after a line leaves it the same once trimmed.
pub proof fn lemma_trim_padded(a: Seq<char>, x: Seq<char>, b: Seq<char>)
    requires
        all_white(a),
        all_white(b),
    ensures
        trim_chars(a + x + b) == trim_chars(x),
{
    assert(a + x + b =~= a + (x + b));
    lemma_trim_start_white_prefix(a, x + b);
    lemma_trim_start_white_suffix(x, b);
    if trim_start_chars(x).len() > 0 {
        lemma_trim_end_white_suffix(trim_start_chars(x), b);
    } else {
        let e = Seq::<char>::empty();
        assert(trim_start_chars(x + b) =~= e);
        assert(trim_start_chars(x) =~= e);
    }
}

/// Padding one line with whitespace changes none of the kept lines.
pub proof fn lemma_keep_nonblank_pad(lines: Seq<Seq<char>>, i: int, a: Seq<char>, b: Seq<char>)
    requires
        0 <= i < lines.len(),
        all_white(a),
        all_white(b),
    ensures
        keep_nonblank(lines.update(i, a + lines[i] + b)) == keep_nonblank(lines),
    decreases lines.len(),
{
    let upd = lines.update(i, a + lines[i] + b);
    if i == lines.len() - 1 {
        assert(upd.drop_last() =~= lines.drop_last());
        lemma_trim_padded(a, lines[i], b);
    } else {
        let init = lines.drop_last();
        lemma_keep_nonblank_pad(init, i, a, b);
        assert(upd.drop_last() =~= init.update(i, a + init[i] + b));
        assert(upd.last() == lines.last());
    }
}

/// Ending every line with a carriage return, as CRLF line endings do,
/// changes none of the kept lines.
pub proof fn lemma_keep_nonblank_crlf(lines: Seq<Seq<char>>)
    ensures
        keep_nonblank(lines.map_values(|l: Seq<char>| l.push('\r'))) == keep_nonblank(lines),
    decreases lines.len(),
{
    let m = lines.map_values(|l: Seq<char>| l.push('\r'));
    if lines.len() > 0 {
        lemma_keep_nonblank_crlf(lines.drop_last());
        assert(m.drop_last() =~= lines.drop_last().map_values(|l: Seq<char>| l.push('\r')));
        let x = lines.last();
        let e = Seq::<char>::empty();
        assert(m.last() == x.push('\r'));
        assert(x.push('\r') =~= e + x + seq!['\r']);
        assert(all_white(e));
        assert(all_white(seq!['\r'])) by {
            assert forall|k: int| 0 <= k < seq!['\r'].len() implies is_white_space(
                #[trigger] seq!['\r'][k],
            ) by {
                assert(seq!['\r'][k] == '\r');
            }
        }
        lemma_trim_padded(e, x, seq!['\r']);
    }
}

proof fn lemma_trim_start_shape(s: Seq<char>)
    ensures
        trim_start_chars(s).len() <= s.len(),
        trim_start_chars(s) == s.skip(s.len() - trim_start_chars(s).len()),
        trim_start_chars(s).len() == 0 || !is_white_space(trim_start_chars(s)[0]),
    decreases s.len(),
{
    if s.len() > 0 && is_white_space(s[0]) {
        lemma_trim_start_shape(s.drop_first());
        let r = trim_start_chars(s.drop_first());
        assert(s.drop_first().skip(s.drop_first().len() - r.len()) =~= s.skip(s.len() - r.len()));
    } else {
        assert(s.skip(0) =~= s);
    }
}

proof fn lemma_trim_end_shape(s: Seq<char>)
    ensures
        trim_end_chars(s).len() <= s.len(),
        trim_end_chars(s) == s.take(trim_end_chars(s).len() as int),
        trim_end_chars(s).len() == 0 || !is_white_space(trim_end_chars(s).last()),
    decreases s.len(),
{
    if s.len() > 0 && is_white_space(s.last()) {
        lemma_trim_end_shape(s.drop_last());
        let r = trim_end_chars(s.drop_last());
        assert(s.drop_last().take(r.len() as int) =~= s.take(r.len() as int));
    } else {
        assert(s.take(s.len() as int) =~= s);
    }
}

/// Trimming what is already trimmed changes nothing.
pub proof fn lemma_trim_idempotent(s: Seq<char>)
    ensures
        trim_chars(trim_chars(s)) == trim_chars(s),
{
    let z = trim_start_chars(s);
    let y = trim_end_chars(z);
    lemma_trim_start_shape(s);
    lemma_trim_end_shape(z);
    if y.len() > 0 {
        assert(y[0] == z[0]);
    }
    assert(trim_start_chars(y) == y);
    assert(trim_end_chars(y) == y);
}

/// Whether `c` is whitespace, as `char::is_whitespace` decides.
pub fn is_whitespace(c: char) -> (r: bool)
    ensures
        r == is_white_space(c),
{
    ('\u{9}' <= c && c <= '\u{d}') || c == ' ' || c == '\u{85}' || c == '\u{a0}' || c == '\u{1680}'
        || ('\u{2000}' <= c && c <= '\u{200a}') || c == '\u{2028}' || c == '\u{2029}' || c
        == '\u{202f}' || c == '\u{205f}' || c == '\u{3000}'
}

/// The characters of `s`.
fn chars_of(s: &str) -> (v: Vec<char>)
    ensures
        v@ == s@,
{
    let mut v: Vec<char> = Vec::new();
    for c in it: s.chars()
        invariant
            v@ == it.seq().take(it.index() as int),
    {
        v.push(c);
    }
    v
}

/// The bounds, within `from..to`, of that range of `v` with its leading and
/// trailing whitespace removed.
fn trim_bounds(v: &Vec<char>, from: usize, to: usize) -> (r: (usize, usize))
    requires
        from <= to <= v@.len(),
    ensures
        from <= r.0 <= r.1 <= to,
        v@.subrange(r.0 as int, r.1 as int) == trim_chars(v@.subrange(from as int, to as int)),
{
    let mut a = from;
    while a < to && is_whitespace(v[a])
        invariant
            from <= a <= to <= v@.len(),
            trim_start_chars(v@.subrange(from as int, to as int)) == trim_start_chars(
                v@.subrange(a as int, to as int),
            ),
        decreases to - a,
    {
        assert(v@.subrange(a as int, to as int).drop_first() =~= v@.subrange(a + 1, to as int));
        a = a + 1;
    }
    assert(trim_start_chars(v@.subrange(a as int, to as int)) == v@.subrange(a as int, to as int));
    let mut b = to;
    while b > a && is_whitespace(v[b - 1])
        invariant
            from <= a <= b <= to <= v@.len(),
            trim_end_chars(v@.subrange(a as int, to as int)) == trim_end_chars(
                v@.subrange(a as int, b as int),
            ),
        decreases b - a,
    {
        assert(v@.subrange(a as int, b as int).drop_last() =~= v@.subrange(a as int, b - 1));
        b = b - 1;
    }
    assert(trim_end_chars(v@.subrange(a as int, b as int)) == v@.subrange(a as int, b as int));
    (a, b)
}

/// `s` without its leading and trailing whitespace, as `str::trim` gives it.
pub fn trim(s: &str) -> (r: String)
    ensures
        r@ == trim_chars(s@),
{
    let v = chars_of(s);
    let (a, b) = trim_bounds(&v, 0, v.len());
    assert(v@.subrange(0, v@.len() as int) =~= v@);
    s.substring_char(a, b).to_owned()
}

/// The lines of `s`, split at line feeds, each trimmed of surrounding
/// whitespace, leaving out those that are then empty.
pub fn nonblank_lines(s: &str) -> (r: Vec<String>)
    ensures
        views_of(r@) == nonblank_lines_of(s@),
{
    let v = chars_of(s);
    let mut out: Vec<String> = Vec::new();
    let mut start: usize = 0;
    let mut i: usize = 0;
    let ghost mut done: Seq<Seq<char>> = Seq::empty();
    assert(v@.take(0) =~= Seq::<char>::empty());
    assert(split_newlines(Seq::<char>::empty()) =~= done.push(v@.subrange(0, 0)));
    while i < v.len()
        invariant
            v@ == s@,
            start <= i <= v@.len(),
            split_newlines(v@.take(i as int)) == done.push(v@.subrange(start as int, i as int)),
            views_of(out@) == keep_nonblank(done),
        decreases v@.len() - i,
    {
        let c = v[i];
        let ghost prev = split_newlines(v@.take(i as int));
        assert(v@.take(i + 1).drop_last() =~= v@.take(i as int));
        assert(v@.take(i + 1).last() == c);
        if c == '\n' {
            let (a, b) = trim_bounds(&v, start, i);
            let ghost piece = v@.subrange(start as int, i as int);
            proof {
                assert(keep_nonblank(done.push(piece)).len() >= 0);
                assert(done.push(piece).drop_last() =~= done);
            }
            if a < b {
                let line = s.substring_char(a, b).to_owned();
                out.push(line);
                assert(views_of(out@) =~= keep_nonblank(done).push(trim_chars(piece)));
            }
            proof {
                done = done.push(piece);
            }
            start = i + 1;
            proof {
                let t = v@.take(i + 1);
                assert(split_newlines(t) == prev.push(Seq::<char>::empty()));
                assert(v@.subrange(start as int, i + 1) =~= Seq::<char>::empty());
            }
        } else {
            proof {
                let t = v@.take(i + 1);
                let piece = v@.subrange(start as int, i as int);
                assert(split_newlines(t) == prev.update(prev.len() - 1, prev.last().push(c)));
                assert(piece.push(c) =~= v@.subrange(start as int, i + 1));
                assert(prev.update(prev.len() - 1, prev.last().push(c)) =~= done.push(
                    v@.subrange(start as int, i + 1),
                ));
            }
        }
        i = i + 1;
    }
    let (a, b) = trim_bounds(&v, start, v.len());
    let ghost piece = v@.subrange(start as int, v@.len() as int);
    assert(v@.take(v@.len() as int) =~= v@);
    assert(done.push(piece).drop_last() =~= done);
    if a < b {
        let line = s.substring_char(a, b).to_owned();
        out.push(line);
        assert(views_of(out@) =~= keep_nonblank(done).push(trim_chars(piece)));
    }
    out
}

} // verus!
