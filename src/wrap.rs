//! Greedy word wrapping of one logical line into fixed-width screen lines.
use vstd::prelude::*;
use crate::chars::{chars_of, is_space, push_char, white_space};

verus! {

/// Format options: the view width, and the indent. A negative indent of
/// magnitude `m` indents the first line by `m` columns; a positive one indents
/// every line but the first (a hanging indent).
#[derive(Clone, Copy, PartialEq, Eq, Debug, Structural)]
pub struct FmtOpts {
    pub w: usize,
    pub i: isize,
}

/// One row of wrapped text, together with the options it was wrapped for.
#[derive(Debug)]
pub struct ScreenLine {
    pub text: String,
    pub for_opts: FmtOpts,
}

/// `n` space characters.
pub open spec fn spaces(n: nat) -> Seq<char> {
    Seq::new(n, |k: int| ' ')
}

/// `s` cut or padded with spaces to exactly `w` characters.
pub open spec fn fit(s: Seq<char>, w: nat) -> Seq<char> {
    if s.len() >= w {
        s.take(w as int)
    } else {
        s + spaces((w - s.len()) as nat)
    }
}

/// `s` without its leading whitespace.
pub open spec fn trim_start(s: Seq<char>) -> Seq<char>
    decreases s.len(),
{
    if s.len() > 0 && white_space(s[0]) {
        trim_start(s.drop_first())
    } else {
        s
    }
}

/// The magnitude of the indent.
pub open spec fn indent_width(o: FmtOpts) -> nat {
    if o.i < 0 {
        (-o.i) as nat
    } else {
        o.i as nat
    }
}

/// The indent of the first line (`later == false`) or of the later lines.
pub open spec fn indent_for(o: FmtOpts, later: bool) -> nat {
    if (o.i < 0) != later {
        indent_width(o)
    } else {
        0
    }
}

/// The room left for text on a line once its indent is taken off; at least
/// one column, so that every break makes progress.
pub open spec fn target_for(o: FmtOpts, later: bool) -> int {
    if indent_for(o, later) >= o.w {
        1
    } else {
        o.w - indent_for(o, later)
    }
}

/// The index of the last whitespace character among the first `n` of `t`,
/// or -1 where there is none.
pub open spec fn last_space(t: Seq<char>, n: int) -> int
    decreases n,
{
    if n <= 0 {
        -1
    } else if white_space(t[n - 1]) {
        n - 1
    } else {
        last_space(t, n - 1)
    }
}

/// The breaks committed once the scan has read character `i`. The break
/// state is `s`, the index where the pending piece starts, and `c`, the
/// index of its first character that takes up room (0 before the first
/// break; after one, `s + 1` where the break was at a whitespace, which the
/// next piece drops, and `s` where it was inside a word). While the
/// characters from `c` to `i` do not fit in the room `r` of the current
/// line, a break is made at the last whitespace at most `r` characters
/// past `c`, or else right after the first `r` of them.
/// Returns the pieces so far and the new `(s, c)`.
pub open spec fn breaks_at(
    t: Seq<char>,
    o: FmtOpts,
    i: int,
    s: int,
    c: int,
    acc: Seq<Seq<char>>,
) -> (Seq<Seq<char>>, int, int)
    decreases i + 1 - c,
{
    let r = target_for(o, c != 0);
    if r >= 1 && i + 1 - c > r {
        let j = last_space(t, c + r + 1);
        if c <= j <= c + r {
            breaks_at(t, o, i, j, j + 1, acc.push(trim_start(t.subrange(s, j))))
        } else {
            breaks_at(t, o, i, c + r, c + r, acc.push(trim_start(t.subrange(s, c + r))))
        }
    } else {
        (acc, s, c)
    }
}

/// The pieces of `t` from character `i` on, given the break state `(s, c)`
/// and the pieces `acc` found before `i`.
pub open spec fn scan(t: Seq<char>, o: FmtOpts, i: int, s: int, c: int, acc: Seq<Seq<char>>) -> Seq<
    Seq<char>,
>
    decreases t.len() - i,
{
    if i >= t.len() {
        let rest = trim_start(t.subrange(s, t.len() as int));
        if rest.len() > 0 {
            acc.push(rest)
        } else {
            acc
        }
    } else {
        let b = breaks_at(t, o, i, s, c, acc);
        scan(t, o, i + 1, b.1, b.2, b.0)
    }
}

/// Whether every character of `t` is whitespace (true of the empty line).
pub open spec fn all_space(t: Seq<char>) -> bool {
    forall|k: int| 0 <= k < t.len() ==> white_space(#[trigger] t[k])
}

/// The text of each line that `t` wraps into, before indenting and padding.
/// A blank line still gives one (empty) piece.
pub open spec fn pieces(t: Seq<char>, o: FmtOpts) -> Seq<Seq<char>> {
    if all_space(t) {
        seq![Seq::empty()]
    } else {
        let p = scan(t, o, 0, 0, 0, Seq::empty());
        if p.len() == 0 {
            seq![Seq::empty()]
        } else {
            p
        }
    }
}

/// Line `k` of a wrapped line: its indent and its piece, forced to width.
pub open spec fn layout(o: FmtOpts, k: int, piece: Seq<char>) -> Seq<char> {
    fit(spaces(indent_for(o, k > 0)) + piece, o.w as nat)
}

/// The screen lines that `t` wraps into under `o`.
pub open spec fn wrap_text(t: Seq<char>, o: FmtOpts) -> Seq<Seq<char>> {
    pieces(t, o).map(|k: int, p: Seq<char>| layout(o, k, p))
}

/// The texts of a sequence of screen lines.
pub open spec fn texts(v: Seq<ScreenLine>) -> Seq<Seq<char>> {
    v.map_values(|l: ScreenLine| l.text@)
}

/// Return a version of `text` that is exactly `width` characters long:
/// truncated if it is longer, padded with spaces if it is shorter.
pub fn force_width(text: String, width: usize) -> (r: String)
    ensures
        r@ == fit(text@, width as nat),
{
    let cs = chars_of(text.as_str());
    let keep: usize = if cs.len() < width {
        cs.len()
    } else {
        width
    };
    let mut r = String::new();
    let mut k: usize = 0;
    while k < keep
        invariant
            keep <= cs.len(),
            keep <= width,
            k <= keep,
            cs@ == text@,
            r@ == cs@.take(k as int),
        decreases keep - k,
    {
        push_char(&mut r, cs[k]);
        proof {
            assert(cs@.take(k + 1) == cs@.take(k as int).push(cs@[k as int]));
        }
        k = k + 1;
    }
    let mut n: usize = keep;
    while n < width
        invariant
            keep <= n <= width,
            keep <= cs.len(),
            cs@ == text@,
            r@ == cs@.take(keep as int) + spaces((n - keep) as nat),
        decreases width - n,
    {
        push_char(&mut r, ' ');
        proof {
            assert(spaces((n + 1 - keep) as nat) == spaces((n - keep) as nat).push(' '));
        }
        n = n + 1;
    }
    proof {
        if cs.len() >= width {
            assert(spaces(0) =~= Seq::<char>::empty());
            assert(r@ =~= text@.take(width as int));
        } else {
            assert(cs@.take(keep as int) =~= text@);
        }
    }
    r
}

/// `n` spaces.
pub(crate) fn spaces_string(n: usize) -> (r: String)
    ensures
        r@ == spaces(n as nat),
{
    let mut r = String::new();
    let mut k: usize = 0;
    while k < n
        invariant
            k <= n,
            r@ == spaces(k as nat),
        decreases n - k,
    {
        push_char(&mut r, ' ');
        proof {
            assert(spaces((k + 1) as nat) =~= spaces(k as nat).push(' '));
        }
        k = k + 1;
    }
    r
}

/// Skipping a run of whitespace is what `trim_start` does.
proof fn lemma_trim_skip(t: Seq<char>, from: int, k: int, to: int)
    requires
        0 <= from <= k <= to <= t.len(),
        forall|q: int| from <= q < k ==> white_space(#[trigger] t[q]),
        k == to || !white_space(t[k]),
    ensures
        trim_start(t.subrange(from, to)) == t.subrange(k, to),
    decreases k - from,
{
    if from < k {
        assert(t.subrange(from, to).drop_first() =~= t.subrange(from + 1, to));
        lemma_trim_skip(t, from + 1, k, to);
    }
}

/// The result of `trim_start` is empty or starts with a non-whitespace
/// character.
pub proof fn lemma_trim_start_trimmed(s: Seq<char>)
    ensures
        trim_start(s).len() == 0 || !white_space(trim_start(s)[0]),
    decreases s.len(),
{
    if s.len() > 0 && white_space(s[0]) {
        lemma_trim_start_trimmed(s.drop_first());
    }
}

proof fn lemma_last_space_bound(t: Seq<char>, n: int)
    ensures
        -1 <= last_space(t, n) < if n < 0 { 0 } else { n },
    decreases n,
{
    if n > 0 && !white_space(t[n - 1]) {
        lemma_last_space_bound(t, n - 1);
    }
}

/// Non-whitespace characters past `k` leave the last whitespace where it
/// was.
proof fn lemma_last_space_skip(t: Seq<char>, k: int, n: int)
    requires
        0 <= k <= n <= t.len(),
        forall|q: int| k <= q < n ==> !white_space(#[trigger] t[q]),
    ensures
        last_space(t, n) == last_space(t, k),
    decreases n - k,
{
    if n > k {
        lemma_last_space_skip(t, k, n - 1);
    }
}

/// An indent wider than the line cuts to the same text as one of the line's
/// width.
proof fn lemma_fit_indent(p: nat, x: Seq<char>, w: nat)
    requires
        p > w,
    ensures
        fit(spaces(p) + x, w) == fit(spaces(w) + x, w),
{
    assert(fit(spaces(p) + x, w) =~= spaces(w));
    assert(fit(spaces(w) + x, w) =~= spaces(w));
}

/// The indent of the first or of the later lines, capped at the width.
fn indent_cols(o: FmtOpts, later: bool) -> (r: usize)
    ensures
        r as int == if indent_for(o, later) > o.w { o.w as int } else { indent_for(o, later) as int },
{
    if (o.i < 0) != later {
        let m: usize = if o.i < 0 {
            ((-(o.i + 1)) as usize) + 1
        } else {
            o.i as usize
        };
        if m > o.w {
            o.w
        } else {
            m
        }
    } else {
        0
    }
}

/// The line that holds `t[from..to]`, trimmed, under the indent of the first
/// or of the later lines.
fn piece_line(t: &Vec<char>, from: usize, to: usize, o: FmtOpts, later: bool) -> (r: String)
    requires
        from <= to <= t.len(),
    ensures
        r@ == fit(spaces(indent_for(o, later)) + trim_start(t@.subrange(from as int, to as int)), o.w as nat),
{
    let p = indent_cols(o, later);
    let mut line = spaces_string(p);
    let mut k: usize = from;
    while k < to && is_space(t[k])
        invariant
            from <= k <= to <= t.len(),
            forall|q: int| from <= q < k ==> white_space(#[trigger] t@[q]),
        decreases to - k,
    {
        k = k + 1;
    }
    proof {
        lemma_trim_skip(t@, from as int, k as int, to as int);
    }
    let ghost start = line@;
    let mut q: usize = k;
    while q < to
        invariant
            k <= q <= to <= t.len(),
            line@ == start + t@.subrange(k as int, q as int),
        decreases to - q,
    {
        push_char(&mut line, t[q]);
        proof {
            assert(t@.subrange(k as int, q + 1) =~= t@.subrange(k as int, q as int).push(t@[q as int]));
        }
        q = q + 1;
    }
    let r = force_width(line, o.w);
    proof {
        if indent_for(o, later) > o.w {
            lemma_fit_indent(indent_for(o, later), t@.subrange(k as int, to as int), o.w as nat);
        }
    }
    r
}

/// Wrap one logical line into screen lines of exactly `opts.w` characters.
///
/// The line is scanned left to right; whenever the characters since the
/// last break outgrow the room on the current line, a break is made at the
/// last whitespace that leaves them within the room, or else right after as
/// many of them as fit. Each piece loses its leading whitespace, gets the
/// indent of its line, and is padded to the width (cut only where the indent
/// itself is as wide as the line). A blank line gives one blank screen line.
pub fn format(text: String, opts: FmtOpts) -> (r: Vec<ScreenLine>)
    ensures
        texts(r@) == wrap_text(text@, opts),
        r.len() >= 1,
        forall|k: int| 0 <= k < r.len() ==> (#[trigger] r[k]).for_opts == opts,
        forall|k: int| 0 <= k < r.len() ==> (#[trigger] r[k]).text@.len() == opts.w,
{
    let t = chars_of(text.as_str());
    let mut blank = true;
    let mut q: usize = 0;
    while q < t.len()
        invariant
            q <= t.len(),
            blank == (forall|k: int| 0 <= k < q ==> white_space(#[trigger] t@[k])),
        decreases t.len() - q,
    {
        if !is_space(t[q]) {
            blank = false;
        }
        q = q + 1;
    }
    let mut result: Vec<ScreenLine> = Vec::new();
    let ghost mut ps: Seq<Seq<char>> = Seq::empty();
    if !blank {
        let first_indent = indent_cols(opts, false);
        let rest_indent = indent_cols(opts, true);
        let first_room: usize = if first_indent >= opts.w {
            1
        } else {
            opts.w - first_indent
        };
        let rest_room: usize = if rest_indent >= opts.w {
            1
        } else {
            opts.w - rest_indent
        };
        let mut s: usize = 0;
        let mut c: usize = 0;
        let mut i: usize = 0;
        while i < t.len()
            invariant
                t@ == text@,
                i <= t.len(),
                s <= c <= i,
                (c == 0 && s == 0) || c == s || (c == s + 1 && white_space(t@[s as int])),
                (c == 0) == (ps.len() == 0),
                first_room == target_for(opts, false),
                rest_room == target_for(opts, true),
                scan(t@, opts, i as int, s as int, c as int, ps) == scan(
                    t@,
                    opts,
                    0,
                    0,
                    0,
                    Seq::empty(),
                ),
                result.len() == ps.len(),
                forall|k: int|
                    0 <= k < ps.len() ==> (#[trigger] result[k]).text@ == layout(opts, k, ps[k])
                        && result[k].for_opts == opts,
            decreases t.len() - i,
        {
            let mut room: usize = if c == 0 {
                first_room
            } else {
                rest_room
            };
            let ghost (s0, c0, ps0) = (s as int, c as int, ps);
            while i + 1 - c > room
                invariant
                    t@ == text@,
                    i < t.len(),
                    s <= c <= i + 1,
                    (c == 0 && s == 0) || c == s || (c == s + 1 && white_space(t@[s as int])),
                    (c == 0) == (ps.len() == 0),
                    rest_room == target_for(opts, true),
                    room == target_for(opts, c != 0),
                    room >= 1,
                    breaks_at(t@, opts, i as int, s as int, c as int, ps) == breaks_at(
                        t@,
                        opts,
                        i as int,
                        s0,
                        c0,
                        ps0,
                    ),
                    result.len() == ps.len(),
                    forall|k: int|
                        0 <= k < ps.len() ==> (#[trigger] result[k]).text@ == layout(
                            opts,
                            k,
                            ps[k],
                        ) && result[k].for_opts == opts,
                decreases i + 1 - c,
            {
                let later = c != 0;
                let lim: usize = c + room;
                let mut k: usize = lim + 1;
                while k > c && !is_space(t[k - 1])
                    invariant
                        c <= k <= lim + 1,
                        lim + 1 <= t.len(),
                        forall|q: int| k <= q < lim + 1 ==> !white_space(#[trigger] t@[q]),
                    decreases k,
                {
                    k = k - 1;
                }
                proof {
                    lemma_last_space_skip(t@, k as int, lim + 1);
                    lemma_last_space_bound(t@, c as int);
                }
                if k > c {
                    let j: usize = k - 1;
                    let line = piece_line(&t, s, j, opts, later);
                    result.push(ScreenLine { text: line, for_opts: opts });
                    proof {
                        ps = ps.push(trim_start(t@.subrange(s as int, j as int)));
                    }
                    s = j;
                    c = k;
                } else {
                    let line = piece_line(&t, s, lim, opts, later);
                    result.push(ScreenLine { text: line, for_opts: opts });
                    proof {
                        ps = ps.push(trim_start(t@.subrange(s as int, lim as int)));
                    }
                    s = lim;
                    c = lim;
                }
                room = rest_room;
            }
            i = i + 1;
        }
        let mut k: usize = s;
        while k < t.len() && is_space(t[k])
            invariant
                s <= k <= t.len(),
                forall|q: int| s <= q < k ==> white_space(#[trigger] t@[q]),
            decreases t.len() - k,
        {
            k = k + 1;
        }
        proof {
            lemma_trim_skip(t@, s as int, k as int, t.len() as int);
        }
        if k < t.len() {
            let line = piece_line(&t, s, t.len(), opts, c != 0);
            result.push(ScreenLine { text: line, for_opts: opts });
            proof {
                ps = ps.push(trim_start(t@.subrange(s as int, t.len() as int)));
            }
        }
        assert(ps == scan(t@, opts, 0, 0, 0, Seq::empty()));
    }
    if result.len() == 0 {
        let line = piece_line(&t, 0, 0, opts, false);
        result.push(ScreenLine { text: line, for_opts: opts });
        proof {
            assert(t@.subrange(0, 0) =~= Seq::<char>::empty());
            ps = seq![Seq::empty()];
        }
    }
    proof {
        assert(ps == pieces(text@, opts));
        assert(texts(result@) =~= wrap_text(text@, opts));
    }
    result
}

/// Whether `p` is empty or starts with a non-whitespace character.
pub open spec fn trimmed(p: Seq<char>) -> bool {
    p.len() == 0 || !white_space(p[0])
}

/// The non-whitespace characters of `x`, in order.
pub open spec fn nonspace(x: Seq<char>) -> Seq<char> {
    x.filter(|ch: char| !white_space(ch))
}

/// The pieces one after another.
pub open spec fn joined(ps: Seq<Seq<char>>) -> Seq<char>
    decreases ps.len(),
{
    if ps.len() == 0 {
        Seq::empty()
    } else {
        joined(ps.drop_last()) + ps.last()
    }
}

/// What holds of a break state: the pieces so far are trimmed, each fits
/// the room of its line, and they hold, with what is left from `s` on, every
/// non-whitespace character of `t` in order.
spec fn sound(t: Seq<char>, o: FmtOpts, s: int, c: int, acc: Seq<Seq<char>>) -> bool {
    &&& 0 <= s <= c <= t.len()
    &&& (c == 0 && s == 0) || c == s || (c == s + 1 && white_space(t[s]))
    &&& (c == 0) == (acc.len() == 0)
    &&& forall|k: int|
        0 <= k < acc.len() ==> trimmed(#[trigger] acc[k]) && acc[k].len() <= target_for(o, k > 0)
    &&& nonspace(joined(acc)) + nonspace(t.subrange(s, t.len() as int)) == nonspace(t)
}

proof fn lemma_nonspace_add(a: Seq<char>, b: Seq<char>)
    ensures
        nonspace(a + b) == nonspace(a) + nonspace(b),
{
    Seq::filter_distributes_over_add(a, b, |ch: char| !white_space(ch));
}

proof fn lemma_trim_nonspace(x: Seq<char>)
    ensures
        nonspace(trim_start(x)) == nonspace(x),
        trim_start(x).len() <= x.len(),
    decreases x.len(),
{
    if x.len() > 0 && white_space(x[0]) {
        lemma_trim_nonspace(x.drop_first());
        assert(x =~= seq![x[0]] + x.drop_first());
        lemma_nonspace_add(seq![x[0]], x.drop_first());
        assert(nonspace(seq![x[0]]) =~= Seq::<char>::empty()) by {
            reveal_with_fuel(Seq::filter, 2);
        }
    }
}

/// A piece from `s` to `e` takes no more room than the characters from `c`.
proof fn lemma_piece_len(t: Seq<char>, s: int, c: int, e: int)
    requires
        0 <= s <= c <= e <= t.len(),
        (c == 0 && s == 0) || c == s || (c == s + 1 && white_space(t[s])),
    ensures
        trim_start(t.subrange(s, e)).len() <= e - c,
        trimmed(trim_start(t.subrange(s, e))),
{
    lemma_trim_start_trimmed(t.subrange(s, e));
    if c == s + 1 && c != s {
        assert(t.subrange(s, e).drop_first() =~= t.subrange(s + 1, e));
        lemma_trim_nonspace(t.subrange(s + 1, e));
    } else {
        lemma_trim_nonspace(t.subrange(s, e));
    }
}

/// Cutting the rest at `j` and keeping the trimmed first part as a piece
/// keeps every non-whitespace character.
proof fn lemma_cut_keeps(t: Seq<char>, acc: Seq<Seq<char>>, s: int, j: int)
    requires
        0 <= s <= j <= t.len(),
        nonspace(joined(acc)) + nonspace(t.subrange(s, t.len() as int)) == nonspace(t),
    ensures
        nonspace(joined(acc.push(trim_start(t.subrange(s, j))))) + nonspace(
            t.subrange(j, t.len() as int),
        ) == nonspace(t),
{
    let p = trim_start(t.subrange(s, j));
    assert(acc.push(p).drop_last() =~= acc);
    assert(joined(acc.push(p)) == joined(acc) + p);
    lemma_nonspace_add(joined(acc), p);
    lemma_trim_nonspace(t.subrange(s, j));
    assert(t.subrange(s, t.len() as int) =~= t.subrange(s, j) + t.subrange(j, t.len() as int));
    lemma_nonspace_add(t.subrange(s, j), t.subrange(j, t.len() as int));
}

proof fn lemma_breaks_sound(t: Seq<char>, o: FmtOpts, i: int, s: int, c: int, acc: Seq<Seq<char>>)
    requires
        0 <= i < t.len(),
        c <= i + 1,
        sound(t, o, s, c, acc),
    ensures
        ({
            let b = breaks_at(t, o, i, s, c, acc);
            &&& sound(t, o, b.1, b.2, b.0)
            &&& b.2 <= i + 1
            &&& i + 1 - b.2 <= target_for(o, b.2 != 0)
        }),
    decreases i + 1 - c,
{
    let r = target_for(o, c != 0);
    if r >= 1 && i + 1 - c > r {
        let j = last_space(t, c + r + 1);
        if c <= j <= c + r {
            let p = trim_start(t.subrange(s, j));
            lemma_piece_len(t, s, c, j);
            lemma_cut_keeps(t, acc, s, j);
            lemma_last_space_is_space(t, c + r + 1);
            assert(forall|k: int|
                0 <= k < acc.push(p).len() ==> trimmed(#[trigger] acc.push(p)[k]) && acc.push(p)[k].len()
                    <= target_for(o, k > 0));
            lemma_breaks_sound(t, o, i, j, j + 1, acc.push(p));
        } else {
            let p = trim_start(t.subrange(s, c + r));
            lemma_piece_len(t, s, c, c + r);
            lemma_cut_keeps(t, acc, s, c + r);
            assert(forall|k: int|
                0 <= k < acc.push(p).len() ==> trimmed(#[trigger] acc.push(p)[k]) && acc.push(p)[k].len()
                    <= target_for(o, k > 0));
            lemma_breaks_sound(t, o, i, c + r, c + r, acc.push(p));
        }
    }
}

proof fn lemma_last_space_is_space(t: Seq<char>, n: int)
    requires
        n <= t.len(),
    ensures
        last_space(t, n) >= 0 ==> white_space(t[last_space(t, n)]),
    decreases n,
{
    if n > 0 && !white_space(t[n - 1]) {
        lemma_last_space_is_space(t, n - 1);
    }
}

proof fn lemma_scan_sound(t: Seq<char>, o: FmtOpts, i: int, s: int, c: int, acc: Seq<Seq<char>>)
    requires
        0 <= i <= t.len(),
        c <= i,
        i - c <= target_for(o, c != 0),
        sound(t, o, s, c, acc),
    ensures
        forall|k: int|
            0 <= k < scan(t, o, i, s, c, acc).len() ==> trimmed(#[trigger] scan(t, o, i, s, c, acc)[k])
                && scan(t, o, i, s, c, acc)[k].len() <= target_for(o, k > 0),
        nonspace(joined(scan(t, o, i, s, c, acc))) == nonspace(t),
    decreases t.len() - i,
{
    if i >= t.len() {
        let rest = trim_start(t.subrange(s, t.len() as int));
        lemma_piece_len(t, s, c, t.len() as int);
        lemma_cut_keeps(t, acc, s, t.len() as int);
        assert(t.subrange(t.len() as int, t.len() as int) =~= Seq::<char>::empty());
        assert(nonspace(Seq::<char>::empty()) =~= Seq::<char>::empty());
        if rest.len() > 0 {
            assert(nonspace(joined(acc.push(rest))) =~= nonspace(t));
            assert(forall|k: int|
                0 <= k < acc.push(rest).len() ==> trimmed(#[trigger] acc.push(rest)[k])
                    && acc.push(rest)[k].len() <= target_for(o, k > 0));
        } else {
            assert(acc.push(rest).drop_last() =~= acc);
            assert(rest =~= Seq::<char>::empty());
            assert(joined(acc.push(rest)) =~= joined(acc));
            assert(nonspace(joined(acc)) =~= nonspace(t));
        }
    } else {
        let b = breaks_at(t, o, i, s, c, acc);
        lemma_breaks_sound(t, o, i, s, c, acc);
        lemma_scan_sound(t, o, i + 1, b.1, b.2, b.0);
    }
}

/// Where the indent goes. With a negative indent of magnitude `m`, the first
/// line is its piece behind `m` spaces, with `m` columns less room, and
/// every later line is its piece alone, with the full width; with a positive
/// indent it is the other way round. Each piece fits the room of its line,
/// no piece starts with whitespace (so a line holds no indent but the one
/// placed here), and the pieces hold every non-whitespace character of the
/// line, in order.
pub proof fn lemma_indent_placement(t: Seq<char>, o: FmtOpts)
    ensures
        wrap_text(t, o).len() == pieces(t, o).len(),
        pieces(t, o).len() >= 1,
        forall|k: int| 0 <= k < pieces(t, o).len() ==> trimmed(#[trigger] pieces(t, o)[k]),
        forall|k: int|
            0 <= k < pieces(t, o).len() ==> (#[trigger] pieces(t, o)[k]).len() <= target_for(o, k > 0),
        nonspace(joined(pieces(t, o))) == nonspace(t),
        o.i < 0 ==> wrap_text(t, o)[0] == fit(spaces(indent_width(o)) + pieces(t, o)[0], o.w as nat),
        o.i < 0 ==> forall|k: int|
            1 <= k < pieces(t, o).len() ==> #[trigger] wrap_text(t, o)[k] == fit(
                pieces(t, o)[k],
                o.w as nat,
            ),
        o.i < 0 && indent_width(o) < o.w ==> target_for(o, false) == o.w - indent_width(o)
            && target_for(o, true) == o.w,
        o.i >= 0 && indent_width(o) < o.w ==> target_for(o, false) == o.w && target_for(o, true)
            == o.w - indent_width(o),
        o.i >= 0 ==> wrap_text(t, o)[0] == fit(pieces(t, o)[0], o.w as nat),
        o.i >= 0 ==> forall|k: int|
            1 <= k < pieces(t, o).len() ==> #[trigger] wrap_text(t, o)[k] == fit(
                spaces(indent_width(o)) + pieces(t, o)[k],
                o.w as nat,
            ),
{
    let ps = pieces(t, o);
    let keep = |ch: char| !white_space(ch);
    assert(t.subrange(0, t.len() as int) =~= t);
    if all_space(t) {
        assert(t.all(|x: char| !keep(x)));
        t.lemma_all_neg_filter_empty(keep);
        assert(nonspace(t) =~= Seq::<char>::empty());
    } else {
        assert(joined(Seq::<Seq<char>>::empty()) == Seq::<char>::empty());
        assert(nonspace(Seq::<char>::empty()) =~= Seq::<char>::empty());
        assert(sound(t, o, 0, 0, Seq::empty()));
        lemma_scan_sound(t, o, 0, 0, 0, Seq::empty());
    }
    let e = seq![Seq::<char>::empty()];
    assert(e.drop_last() =~= Seq::<Seq<char>>::empty());
    assert(joined(e.drop_last()) == Seq::<char>::empty());
    assert(e.last() == Seq::<char>::empty());
    assert(joined(e) =~= Seq::<char>::empty());
    assert(nonspace(Seq::<char>::empty()) =~= Seq::<char>::empty());
    assert(forall|k: int| 0 <= k < ps.len() ==> trimmed(#[trigger] ps[k]));
    assert forall|k: int| 0 <= k < ps.len() implies spaces(0) + #[trigger] ps[k] == ps[k] by {
        assert(spaces(0) + ps[k] =~= ps[k]);
    }
}

/// Each line of a wrap is exactly as wide as the options say, and there is
/// at least one.
pub proof fn lemma_wrap_width(t: Seq<char>, o: FmtOpts)
    ensures
        wrap_text(t, o).len() >= 1,
        forall|k: int| 0 <= k < wrap_text(t, o).len() ==> (#[trigger] wrap_text(t, o)[k]).len() == o.w,
{
    lemma_indent_placement(t, o);
}

proof fn lemma_nonspace_spaces(n: nat)
    ensures
        nonspace(spaces(n)) == Seq::<char>::empty(),
{
    let keep = |ch: char| !white_space(ch);
    assert(spaces(n).all(|x: char| !keep(x)));
    spaces(n).lemma_all_neg_filter_empty(keep);
    assert(nonspace(spaces(n)) =~= Seq::<char>::empty());
}

proof fn lemma_joined_nonspace(a: Seq<Seq<char>>, b: Seq<Seq<char>>)
    requires
        a.len() == b.len(),
        forall|k: int| 0 <= k < a.len() ==> nonspace(#[trigger] a[k]) == nonspace(b[k]),
    ensures
        nonspace(joined(a)) == nonspace(joined(b)),
    decreases a.len(),
{
    if a.len() > 0 {
        lemma_joined_nonspace(a.drop_last(), b.drop_last());
        lemma_nonspace_add(joined(a.drop_last()), a.last());
        lemma_nonspace_add(joined(b.drop_last()), b.last());
    }
}

/// With an indent narrower than the line nothing is cut: each line is its
/// indent, its piece and padding, and the lines together hold every
/// non-whitespace character of the wrapped line, in order, none lost or
/// repeated.
pub proof fn lemma_wrap_keeps_text(t: Seq<char>, o: FmtOpts)
    requires
        indent_width(o) < o.w,
    ensures
        forall|k: int|
            0 <= k < wrap_text(t, o).len() ==> #[trigger] wrap_text(t, o)[k] == spaces(
                indent_for(o, k > 0),
            ) + pieces(t, o)[k] + spaces(
                (o.w - indent_for(o, k > 0) - pieces(t, o)[k].len()) as nat,
            ),
        nonspace(joined(wrap_text(t, o))) == nonspace(t),
{
    lemma_indent_placement(t, o);
    let ps = pieces(t, o);
    let ls = wrap_text(t, o);
    assert forall|k: int| 0 <= k < ls.len() implies #[trigger] ls[k] == spaces(indent_for(o, k > 0))
        + ps[k] + spaces((o.w - indent_for(o, k > 0) - ps[k].len()) as nat) && nonspace(ls[k])
        == nonspace(ps[k]) by {
        let ind = indent_for(o, k > 0);
        let x = spaces(ind) + ps[k];
        let pad = spaces((o.w - ind - ps[k].len()) as nat);
        assert(ps[k].len() <= target_for(o, k > 0));
        assert(ls[k] == fit(x, o.w as nat));
        if x.len() >= o.w {
            assert(pad =~= Seq::<char>::empty());
            assert(fit(x, o.w as nat) =~= x + pad);
        }
        lemma_nonspace_add(spaces(ind), ps[k]);
        lemma_nonspace_add(x, pad);
        lemma_nonspace_spaces(ind);
        lemma_nonspace_spaces((o.w - ind - ps[k].len()) as nat);
        assert(nonspace(spaces(ind)) + nonspace(ps[k]) =~= nonspace(ps[k]));
        assert(nonspace(x) + nonspace(pad) =~= nonspace(x));
    }
    lemma_joined_nonspace(ls, ps);
}

} // verus!
