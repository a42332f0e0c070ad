//! A scrollable, word-wrapped view onto an append-only history of lines.
use vstd::prelude::*;
use crate::cache::{cached, line_views, WrapCache};
use crate::chars::{chars_of, push_char};
use crate::wrap::{lemma_wrap_width, spaces, spaces_string, texts, wrap_text, FmtOpts, ScreenLine};

verus! {

/// The abstract state of a view: its height, its format options, the
/// history of logical lines, and the scroll position (the index of the line
/// at the bottom, and how many of that line's last screen lines are hidden).
pub struct ViewState {
    pub h: usize,
    pub fmt: FmtOpts,
    pub history: Seq<Seq<char>>,
    pub position: (usize, usize),
}

/// `s` without its line feeds and carriage returns.
pub open spec fn strip_breaks(s: Seq<char>) -> Seq<char>
    decreases s.len(),
{
    if s.len() == 0 {
        s
    } else {
        let r = strip_breaks(s.drop_last());
        if s.last() == '\n' || s.last() == '\r' {
            r
        } else {
            r.push(s.last())
        }
    }
}

/// The screen lines of the first `n` history lines, top to bottom.
pub open spec fn stacked(hist: Seq<Seq<char>>, o: FmtOpts, n: int) -> Seq<Seq<char>>
    decreases n,
{
    if n <= 0 {
        Seq::empty()
    } else {
        stacked(hist, o, n - 1) + wrap_text(hist[n - 1], o)
    }
}

/// Every screen line at or above the bottom of the view, top to bottom:
/// those of the lines before the anchor, then the anchor's own, less the
/// hidden ones at its end.
pub open spec fn visible_rows(v: ViewState) -> Seq<Seq<char>> {
    if v.history.len() == 0 {
        Seq::empty()
    } else {
        let a = v.position.0 as int;
        let anchor = wrap_text(v.history[a], v.fmt);
        let keep = if v.position.1 >= anchor.len() {
            0
        } else {
            anchor.len() - v.position.1
        };
        stacked(v.history, v.fmt, a) + anchor.take(keep)
    }
}

/// What the view shows: its last `h` rows, or all of them below enough
/// blank rows to fill the height.
pub open spec fn screen(v: ViewState) -> Seq<Seq<char>> {
    let rows = visible_rows(v);
    if rows.len() >= v.h {
        rows.subrange(rows.len() - v.h, rows.len() as int)
    } else {
        Seq::new((v.h - rows.len()) as nat, |k: int| spaces(v.fmt.w as nat)) + rows
    }
}

/// What every view's state satisfies: the history's length fits in a
/// `usize`, and the scroll position names one of its lines (or is zero while
/// it is empty).
pub open spec fn valid(v: ViewState) -> bool {
    &&& v.history.len() <= usize::MAX
    &&& v.history.len() == 0 ==> v.position == (0usize, 0usize)
    &&& v.history.len() > 0 ==> v.position.0 < v.history.len()
}

/// The state after `line` is added: the history grows by the line, less its
/// line breaks; a view that showed the last line follows to the new one.
pub open spec fn pushed(v: ViewState, line: Seq<char>) -> ViewState {
    let n = v.history.len();
    ViewState {
        history: v.history.push(strip_breaks(line)),
        position: if n == 0 || v.position.0 == n - 1 {
            (n as usize, 0)
        } else {
            v.position
        },
        ..v
    }
}

/// What a call of `render` does: it hands out the screen and leaves the
/// view as it was.
pub open spec fn render_post(before: ViewState, rows: Seq<Seq<char>>, after: ViewState) -> bool {
    after == before && rows == screen(before)
}

/// The texts of a vector of strings.
pub open spec fn string_views(v: Seq<String>) -> Seq<Seq<char>> {
    v.map_values(|s: String| s@)
}

/// A view onto some word-wrapped lines.
pub struct WrappedView {
    h: usize,
    fmt: FmtOpts,
    /// The logical lines, oldest first.
    history: Vec<String>,
    /// The screen lines last computed for each history index; an entry is
    /// used only while its options match `fmt`.
    cache: WrapCache,
    /// The history index at the bottom of the view, and how many of its
    /// last screen lines are scrolled off below.
    position: (usize, usize),
}

/// A cache entry holds the wrap of `t` under the options it carries.
pub open spec fn entry_ok(e: Seq<(Seq<char>, FmtOpts)>, t: Seq<char>) -> bool {
    &&& e.len() >= 1
    &&& forall|q: int| 0 <= q < e.len() ==> (#[trigger] e[q]).1 == e[0].1
    &&& e.map_values(|x: (Seq<char>, FmtOpts)| x.0) == wrap_text(t, e[0].1)
}

impl View for WrappedView {
    type V = ViewState;

    closed spec fn view(&self) -> ViewState {
        ViewState {
            h: self.h,
            fmt: self.fmt,
            history: string_views(self.history@),
            position: self.position,
        }
    }
}

/// A copy of each line.
fn copy_lines(v: &Vec<ScreenLine>) -> (r: Vec<ScreenLine>)
    ensures
        line_views(r@) == line_views(v@),
{
    let mut r: Vec<ScreenLine> = Vec::new();
    let mut k: usize = 0;
    while k < v.len()
        invariant
            k <= v.len(),
            line_views(r@) == line_views(v@).take(k as int),
        decreases v.len() - k,
    {
        let ghost before = r@;
        let line = ScreenLine { text: v[k].text.clone(), for_opts: v[k].for_opts };
        assert(line.text@ == v@[k as int].text@);
        r.push(line);
        proof {
            assert(r@ == before.push(line));
            assert(line_views(r@) =~= line_views(before).push((line.text@, line.for_opts)));
            assert(line_views(r@) =~= line_views(v@).take(k + 1));
        }
        k = k + 1;
    }
    proof {
        assert(line_views(r@) =~= line_views(v@));
    }
    r
}

/// `s` without its line feeds and carriage returns.
fn strip_line(s: &String) -> (r: String)
    ensures
        r@ == strip_breaks(s@),
{
    let cs = chars_of(s.as_str());
    let mut r = String::new();
    let mut k: usize = 0;
    while k < cs.len()
        invariant
            k <= cs.len(),
            cs@ == s@,
            r@ == strip_breaks(cs@.take(k as int)),
        decreases cs.len() - k,
    {
        let c = cs[k];
        proof {
            assert(cs@.take(k + 1).drop_last() =~= cs@.take(k as int));
        }
        if c != '\n' && c != '\r' {
            push_char(&mut r, c);
        }
        k = k + 1;
    }
    proof {
        assert(cs@.take(cs.len() as int) =~= s@);
    }
    r
}

impl WrappedView {
    /// The view's invariant: the scroll position names a line of the history
    /// (or is zero while the history is empty), and each cache entry belongs
    /// to a history line and holds its wrap under the entry's own options.
    pub closed spec fn wf(&self) -> bool {
        &&& (self.history.len() == 0 ==> self.position == (0usize, 0usize))
        &&& (self.history.len() > 0 ==> self.position.0 < self.history.len())
        &&& forall|k: usize|
            #[trigger] cached(self.cache).contains_key(k) ==> k < self.history.len() && entry_ok(
                cached(self.cache)[k],
                self.history@[k as int]@,
            )
    }

    /// A well-formed view has a valid state.
    pub proof fn lemma_valid(&self)
        requires
            self.wf(),
        ensures
            valid(self@),
    {
    }

    /// An empty view of width `w` and height `h`, with a hanging indent of
    /// four columns.
    pub fn new(w: usize, h: usize) -> (r: WrappedView)
        ensures
            r.wf(),
            r@ == (ViewState {
                h,
                fmt: FmtOpts { w, i: 4 },
                history: Seq::empty(),
                position: (0, 0),
            }),
    {
        let r = WrappedView {
            h,
            fmt: FmtOpts { i: 4, w },
            history: Vec::new(),
            cache: WrapCache::new(),
            position: (0, 0),
        };
        proof {
            assert(r@.history =~= Seq::<Seq<char>>::empty());
        }
        r
    }

    /// Change the view's size. Cached wraps are kept; each is recomputed
    /// when next used, as its options no longer match.
    pub fn resize(&mut self, w: usize, h: usize)
        requires
            old(self).wf(),
        ensures
            final(self).wf(),
            final(self)@ == (ViewState { h, fmt: FmtOpts { w, ..old(self)@.fmt }, ..old(self)@ }),
    {
        self.h = h;
        self.fmt.w = w;
    }

    /// Add a line to the view, without its `\n` and `\r` characters. A view
    /// that showed the last line follows to the new one; one scrolled back
    /// stays where it is.
    pub fn push(&mut self, line: String)
        requires
            old(self).wf(),
        ensures
            final(self).wf(),
            final(self)@ == pushed(old(self)@, line@),
    {
        let stripped = strip_line(&line);
        let n = self.history.len();
        self.history.push(stripped);
        if n == 0 || self.position.0 == n - 1 {
            self.position = (n, 0);
        }
        proof {
            assert(self@.history =~= pushed(old(self)@, line@).history);
        }
    }

    /// Scroll so that history line `line` (or the last one, if there are
    /// fewer) is at the bottom, with its last `hidden` screen lines below
    /// the view.
    pub fn scroll_to(&mut self, line: usize, hidden: usize)
        requires
            old(self).wf(),
        ensures
            final(self).wf(),
            final(self)@ == (ViewState {
                position: if old(self)@.history.len() == 0 {
                    (0usize, 0usize)
                } else if line >= old(self)@.history.len() {
                    ((old(self)@.history.len() - 1) as usize, hidden)
                } else {
                    (line, hidden)
                },
                ..old(self)@
            }),
    {
        let n = self.history.len();
        if n > 0 {
            let a = if line >= n {
                n - 1
            } else {
                line
            };
            self.position = (a, hidden);
        }
    }

    /// The screen lines of history line `line` under the current options,
    /// from the cache where its entry is current, else freshly wrapped and
    /// stored.
    fn wrap(&mut self, line: usize) -> (r: Vec<ScreenLine>)
        requires
            old(self).wf(),
            line < old(self)@.history.len(),
        ensures
            final(self).wf(),
            final(self)@ == old(self)@,
            texts(r@) == wrap_text(old(self)@.history[line as int], old(self)@.fmt),
    {
        let mut hit: Option<Vec<ScreenLine>> = None;
        match self.cache.get(line) {
            Some(lines) => {
                if lines.len() > 0 && lines[0].for_opts == self.fmt {
                    hit = Some(copy_lines(lines));
                }
            },
            None => {},
        }
        match hit {
            Some(lines) => {
                proof {
                    let e = cached(self.cache)[line];
                    assert(e.map_values(|x: (Seq<char>, FmtOpts)| x.0) =~= texts(lines@));
                }
                lines
            },
            None => {
                let new_lines = crate::wrap::format(self.history[line].clone(), self.fmt);
                let copy = copy_lines(&new_lines);
                self.cache.insert(line, new_lines);
                proof {
                    let e = line_views(new_lines@);
                    assert(e.map_values(|x: (Seq<char>, FmtOpts)| x.0) =~= texts(new_lines@));
                    assert(texts(copy@) =~= texts(new_lines@)) by {
                        assert forall|q: int| 0 <= q < copy.len() implies copy@[q].text@
                            == new_lines@[q].text@ by {
                            assert(line_views(copy@)[q] == line_views(new_lines@)[q]);
                        }
                    }
                    assert(forall|k: usize| #[trigger]
                        cached(self.cache).contains_key(k) && k != line ==> cached(
                            old(self).cache,
                        ).contains_key(k));
                }
                copy
            },
        }
    }

    /// The rows to draw for this view, top to bottom: exactly `h` of them,
    /// each `w` characters wide. The view's lines are walked upwards from the
    /// anchor until the height is filled; what is left above is blank.
    pub fn render(&mut self) -> (r: Vec<String>)
        requires
            old(self).wf(),
        ensures
            final(self).wf(),
            render_post(old(self)@, string_views(r@), final(self)@),
    {
        let h = self.h;
        let w = self.fmt.w;
        let ghost rows = visible_rows(self@);
        // The rows collected so far, bottom to top.
        let mut out: Vec<String> = Vec::new();
        if self.history.len() > 0 {
            let a = self.position.0;
            let d = self.position.1;
            let mut cur = self.wrap(a);
            let mut idx: usize = if d >= cur.len() {
                0
            } else {
                cur.len() - d
            };
            let mut k: usize = a;
            proof {
                assert(rows =~= stacked(self@.history, self@.fmt, k as int) + texts(cur@).take(
                    idx as int,
                ) + string_views(out@).reverse());
            }
            while out.len() < h && (idx > 0 || k > 0)
                invariant
                    self.wf(),
                    self@ == old(self)@,
                    h == self@.h,
                    k < self@.history.len(),
                    idx <= cur.len(),
                    out.len() <= h,
                    texts(cur@) == wrap_text(self@.history[k as int], self@.fmt),
                    rows == stacked(self@.history, self@.fmt, k as int) + texts(cur@).take(
                        idx as int,
                    ) + string_views(out@).reverse(),
                decreases k, idx,
            {
                if idx == 0 {
                    k = k - 1;
                    cur = self.wrap(k);
                    idx = cur.len();
                    proof {
                        assert(texts(cur@).take(idx as int) =~= texts(cur@));
                    }
                } else {
                    idx = idx - 1;
                    let ghost before = out@;
                    out.push(cur[idx].text.clone());
                    proof {
                        assert(string_views(out@) =~= string_views(before).push(
                            texts(cur@)[idx as int],
                        ));
                        assert(string_views(out@).reverse() =~= seq![texts(cur@)[idx as int]]
                            + string_views(before).reverse());
                        assert(texts(cur@).take(idx + 1) =~= texts(cur@).take(idx as int).push(
                            texts(cur@)[idx as int],
                        ));
                    }
                }
            }
            proof {
                if out.len() < h {
                    assert(texts(cur@).take(0) =~= Seq::<Seq<char>>::empty());
                    assert(rows =~= string_views(out@).reverse());
                }
            }
        } else {
            proof {
                assert(rows =~= string_views(out@).reverse());
            }
        }
        let mut r: Vec<String> = Vec::new();
        let blanks: usize = h - out.len();
        let mut b: usize = 0;
        while b < blanks
            invariant
                b <= blanks,
                blanks == h - out.len(),
                string_views(r@) == Seq::new(b as nat, |k: int| spaces(w as nat)),
            decreases blanks - b,
        {
            let ghost before = r@;
            let blank = spaces_string(w);
            r.push(blank);
            proof {
                assert(string_views(r@) =~= string_views(before).push(blank@));
                assert(string_views(r@) =~= Seq::new((b + 1) as nat, |k: int| spaces(w as nat)));
            }
            b = b + 1;
        }
        let mut q: usize = out.len();
        while q > 0
            invariant
                q <= out.len(),
                string_views(r@) == Seq::new(blanks as nat, |k: int| spaces(w as nat))
                    + string_views(out@).reverse().take((out.len() - q) as int),
            decreases q,
        {
            q = q - 1;
            let ghost before = r@;
            r.push(out[q].clone());
            proof {
                assert(string_views(out@).reverse().take((out.len() - q) as int)
                    =~= string_views(out@).reverse().take((out.len() - q - 1) as int).push(
                    out@[q as int]@,
                ));
                assert(string_views(r@) =~= string_views(before).push(out@[q as int]@));
            }
        }
        proof {
            let pad = Seq::new(blanks as nat, |k: int| spaces(w as nat));
            let shown = string_views(out@).reverse();
            assert(shown.take(out.len() as int) =~= shown);
            if rows.len() >= h {
                assert(out.len() == h);
                assert(pad =~= Seq::<Seq<char>>::empty());
                assert(rows.subrange(rows.len() - h, rows.len() as int) =~= shown);
                assert(string_views(r@) =~= screen(self@));
            } else {
                assert(rows == shown);
                assert(string_views(r@) =~= screen(self@));
            }
        }
        r
    }
}

} // verus!

verus! {

/// Rendering twice with no change in between gives the same rows, and the
/// view stays as it was.
pub proof fn lemma_render_twice(
    v0: ViewState,
    rows1: Seq<Seq<char>>,
    v1: ViewState,
    rows2: Seq<Seq<char>>,
    v2: ViewState,
)
    requires
        render_post(v0, rows1, v1),
        render_post(v1, rows2, v2),
    ensures
        rows1 == rows2,
        v2 == v0,
{
}

proof fn lemma_stacked_width(hist: Seq<Seq<char>>, o: FmtOpts, n: int)
    requires
        n <= hist.len(),
    ensures
        forall|k: int| 0 <= k < stacked(hist, o, n).len() ==> (#[trigger] stacked(hist, o, n)[k]).len() == o.w,
    decreases n,
{
    if n > 0 {
        lemma_stacked_width(hist, o, n - 1);
        lemma_wrap_width(hist[n - 1], o);
        let a = stacked(hist, o, n - 1);
        let b = wrap_text(hist[n - 1], o);
        assert(stacked(hist, o, n) == a + b);
        assert forall|k: int| 0 <= k < (a + b).len() implies (#[trigger] (a + b)[k]).len() == o.w by {
            if k < a.len() {
                assert((a + b)[k] == a[k]);
            } else {
                assert((a + b)[k] == b[k - a.len()]);
            }
        }
    }
}

proof fn lemma_stacked_prefix(h1: Seq<Seq<char>>, h2: Seq<Seq<char>>, o: FmtOpts, n: int)
    requires
        n <= h1.len(),
        n <= h2.len(),
        forall|k: int| 0 <= k < n ==> h1[k] == h2[k],
    ensures
        stacked(h1, o, n) == stacked(h2, o, n),
    decreases n,
{
    if n > 0 {
        lemma_stacked_prefix(h1, h2, o, n - 1);
    }
}

/// The screen has exactly `h` rows, each exactly `w` characters wide.
pub proof fn lemma_screen_shape(v: ViewState)
    requires
        valid(v),
    ensures
        screen(v).len() == v.h,
        forall|k: int| 0 <= k < v.h ==> (#[trigger] screen(v)[k]).len() == v.fmt.w,
{
    let rows = visible_rows(v);
    if v.history.len() > 0 {
        let a = v.position.0 as int;
        lemma_stacked_width(v.history, v.fmt, a);
        lemma_wrap_width(v.history[a], v.fmt);
    }
    assert(forall|k: int| 0 <= k < rows.len() ==> (#[trigger] rows[k]).len() == v.fmt.w);
}

/// Where the view has fewer rows than its height, the missing rows are
/// blank rows at the top, above all the rows there are.
pub proof fn lemma_short_view_padded(v: ViewState)
    requires
        visible_rows(v).len() < v.h,
    ensures
        screen(v).len() == v.h,
        forall|k: int| 0 <= k < v.h - visible_rows(v).len() ==> #[trigger] screen(v)[k] == spaces(v.fmt.w as nat),
        screen(v).subrange(v.h - visible_rows(v).len(), v.h as int) == visible_rows(v),
{
    let rows = visible_rows(v);
    assert(screen(v).subrange(v.h - rows.len(), v.h as int) =~= rows);
}

/// A line added while the view shows the last line appears at the bottom:
/// the bottom row is the last screen line of the new line.
pub proof fn lemma_push_follows(v: ViewState, line: Seq<char>)
    requires
        v.h >= 1,
        valid(v),
        v.history.len() == 0 || v.position.0 == v.history.len() - 1,
    ensures
        screen(pushed(v, line)).last() == wrap_text(strip_breaks(line), v.fmt).last(),
{
    let v2 = pushed(v, line);
    let anchor = wrap_text(strip_breaks(line), v.fmt);
    lemma_wrap_width(strip_breaks(line), v.fmt);
    assert(v2.position.0 == v.history.len());
    assert(v2.history[v2.position.0 as int] == strip_breaks(line));
    assert(anchor.take(anchor.len() as int) =~= anchor);
    let rows = visible_rows(v2);
    assert(rows.last() == anchor.last());
}

/// A line added while the view is scrolled back changes nothing on screen.
pub proof fn lemma_push_scrolled_back(v: ViewState, line: Seq<char>)
    requires
        v.history.len() > 0,
        v.position.0 < v.history.len() - 1,
    ensures
        screen(pushed(v, line)) == screen(v),
{
    let v2 = pushed(v, line);
    lemma_stacked_prefix(v.history, v2.history, v.fmt, v.position.0 as int);
    assert(visible_rows(v2) == visible_rows(v));
}

} // verus!
