//! A single line of editable input with a cursor.
use vstd::prelude::*;
use crate::chars::{chars_of, push_char};
use crate::wrap::{fit, force_width};

verus! {

/// The abstract state of an input line: its characters, the cursor (the
/// number of characters before it), and the width it is drawn at.
pub struct InputState {
    pub buffer: Seq<char>,
    pub cursor: usize,
    pub width: usize,
}

/// The rows that show `b` at width `w`: consecutive runs of `w` characters
/// (the last one possibly shorter), each padded to `w`.
pub open spec fn chunk_rows(b: Seq<char>, w: nat) -> Seq<Seq<char>>
    decreases b.len(),
{
    if w == 0 || b.len() == 0 {
        Seq::empty()
    } else if b.len() <= w {
        seq![fit(b, w)]
    } else {
        seq![b.take(w as int)] + chunk_rows(b.skip(w as int), w)
    }
}

/// UI for input and editing of a single line of text on the terminal.
pub struct InputLine {
    buffer: Vec<char>,
    /// The cursor stands between characters: it counts those before it.
    cursor: usize,
    target_width: usize,
}

impl View for InputLine {
    type V = InputState;

    closed spec fn view(&self) -> InputState {
        InputState { buffer: self.buffer@, cursor: self.cursor, width: self.target_width }
    }
}

impl InputLine {
    /// An empty input line drawn `width` columns wide.
    pub fn new(width: usize, _height: usize) -> (r: InputLine)
        ensures
            r@ == (InputState { buffer: Seq::empty(), cursor: 0, width }),
    {
        InputLine { buffer: Vec::new(), cursor: 0, target_width: width }
    }

    /// Insert a character at the cursor, and move the cursor past it. A
    /// cursor at or past the end appends, and ends up at the new end.
    pub fn insert_char(&mut self, what: char)
        requires
            old(self)@.buffer.len() < usize::MAX,
        ensures
            old(self)@.cursor >= old(self)@.buffer.len() ==> final(self)@ == (InputState {
                buffer: old(self)@.buffer.push(what),
                cursor: (old(self)@.buffer.len() + 1) as usize,
                ..old(self)@
            }),
            old(self)@.cursor < old(self)@.buffer.len() ==> final(self)@ == (InputState {
                buffer: old(self)@.buffer.insert(old(self)@.cursor as int, what),
                cursor: (old(self)@.cursor + 1) as usize,
                ..old(self)@
            }),
    {
        if self.cursor >= self.buffer.len() {
            self.buffer.push(what);
            self.cursor = self.buffer.len();
        } else {
            self.buffer.insert(self.cursor, what);
            self.cursor = self.cursor + 1;
        }
    }

    /// Replace the contents of the input with `what`; the cursor stays.
    pub fn set_string(&mut self, what: String)
        ensures
            final(self)@ == (InputState { buffer: what@, ..old(self)@ }),
    {
        self.buffer = chars_of(what.as_str());
    }

    /// Move the cursor `offset` characters right (or left, if negative),
    /// stopping at either end of the buffer.
    pub fn move_cursor(&mut self, offset: isize)
        ensures
            final(self)@.buffer == old(self)@.buffer,
            final(self)@.width == old(self)@.width,
            final(self)@.cursor as int == if offset < 0 {
                if old(self)@.cursor + offset < 0 {
                    0
                } else {
                    old(self)@.cursor + offset
                }
            } else if old(self)@.cursor + offset > old(self)@.buffer.len() {
                old(self)@.buffer.len() as int
            } else {
                old(self)@.cursor + offset
            },
    {
        let len = self.buffer.len();
        if offset < 0 {
            let backwards: usize = ((-(offset + 1)) as usize) + 1;
            self.cursor = if backwards > self.cursor {
                0
            } else {
                self.cursor - backwards
            };
        } else {
            let forwards = offset as usize;
            self.cursor = if self.cursor >= len || forwards >= len - self.cursor {
                len
            } else {
                self.cursor + forwards
            };
        }
    }

    /// The text of the input.
    pub fn as_text(&self) -> (r: String)
        ensures
            r@ == self@.buffer,
    {
        let mut r = String::new();
        let mut k: usize = 0;
        while k < self.buffer.len()
            invariant
                k <= self.buffer.len(),
                r@ == self@.buffer.take(k as int),
            decreases self.buffer.len() - k,
        {
            push_char(&mut r, self.buffer[k]);
            proof {
                assert(self@.buffer.take(k + 1) =~= self@.buffer.take(k as int).push(self@.buffer[k as int]));
            }
            k = k + 1;
        }
        proof {
            assert(self@.buffer.take(self.buffer.len() as int) =~= self@.buffer);
        }
        r
    }

    /// Draw the input `width` columns wide: one row per run of `width`
    /// characters, each padded to the width.
    pub fn render(&self) -> (r: Vec<String>)
        requires
            self@.width > 0,
        ensures
            r@.map_values(|s: String| s@) == chunk_rows(self@.buffer, self@.width as nat),
    {
        let w = self.target_width;
        let n = self.buffer.len();
        let mut r: Vec<String> = Vec::new();
        let mut start: usize = 0;
        proof {
            assert(self@.buffer.skip(0) =~= self@.buffer);
            assert(r@.map_values(|s: String| s@) =~= Seq::<Seq<char>>::empty());
            assert(Seq::<Seq<char>>::empty() + chunk_rows(self@.buffer, w as nat) =~= chunk_rows(
                self@.buffer,
                w as nat,
            ));
        }
        while start < n
            invariant
                w == self@.width,
                w > 0,
                n == self@.buffer.len(),
                start <= n,
                r@.map_values(|s: String| s@) + chunk_rows(self@.buffer.skip(start as int), w as nat)
                    == chunk_rows(self@.buffer, w as nat),
            decreases n - start,
        {
            let end: usize = if n - start <= w {
                n
            } else {
                start + w
            };
            let mut chunk = String::new();
            let mut q: usize = start;
            while q < end
                invariant
                    start <= q <= end <= n,
                    n == self@.buffer.len(),
                    chunk@ == self@.buffer.subrange(start as int, q as int),
                decreases end - q,
            {
                push_char(&mut chunk, self.buffer[q]);
                proof {
                    assert(self@.buffer.subrange(start as int, q + 1) =~= self@.buffer.subrange(
                        start as int,
                        q as int,
                    ).push(self@.buffer[q as int]));
                }
                q = q + 1;
            }
            let row = force_width(chunk, w);
            let ghost before = r@;
            r.push(row);
            proof {
                let rest = self@.buffer.skip(start as int);
                assert(r@.map_values(|s: String| s@) =~= before.map_values(|s: String| s@).push(row@));
                if n - start <= w {
                    assert(rest =~= self@.buffer.subrange(start as int, n as int));
                    assert(self@.buffer.skip(n as int) =~= Seq::<char>::empty());
                    assert(chunk_rows(self@.buffer.skip(n as int), w as nat) =~= Seq::<Seq<char>>::empty());
                } else {
                    assert(rest.take(w as int) =~= chunk@);
                    assert(fit(chunk@, w as nat) =~= chunk@);
                    assert(rest.skip(w as int) =~= self@.buffer.skip(end as int));
                }
                assert(r@.map_values(|s: String| s@) + chunk_rows(self@.buffer.skip(end as int), w as nat)
                    =~= chunk_rows(self@.buffer, w as nat));
            }
            start = end;
        }
        proof {
            assert(self@.buffer.skip(start as int) =~= Seq::<char>::empty());
            assert(r@.map_values(|s: String| s@) =~= r@.map_values(|s: String| s@) + chunk_rows(
                self@.buffer.skip(start as int),
                w as nat,
            ));
        }
        r
    }

    /// The width the input is drawn at, and the number of rows it takes
    /// (at least one, even when empty).
    pub fn get_size(&self) -> (r: (usize, usize))
        requires
            self@.width > 0,
        ensures
            r.0 == self@.width,
            r.1 as int == if self@.buffer.len() == 0 {
                1
            } else {
                (self@.buffer.len() + self@.width - 1) as int / self@.width as int
            },
    {
        let w = self.target_width;
        let mut lines: usize = self.buffer.len() / w;
        let remainder: usize = self.buffer.len() % w;
        let ghost n = self.buffer.len() as int;
        let ghost wi = w as int;
        let ghost q = n / wi;
        let ghost m = n % wi;
        proof {
            vstd::arithmetic::div_mod::lemma_fundamental_div_mod(n, wi);
            assert(0 <= m < wi);
            assert(q >= 0);
            if m > 0 {
                assert(q < usize::MAX) by (nonlinear_arith)
                    requires
                        n == wi * q + m,
                        m > 0,
                        wi > m,
                        n <= usize::MAX,
                        q >= 0,
                ;
            }
        }
        if remainder > 0 || lines == 0 {
            lines = lines + 1;
        }
        proof {
            if n > 0 {
                assert((q + 1) * wi == wi * q + wi) by (nonlinear_arith);
                assert(q * wi == wi * q) by (nonlinear_arith);
                if m > 0 {
                    vstd::arithmetic::div_mod::lemma_fundamental_div_mod_converse_div(
                        n + wi - 1,
                        wi,
                        q + 1,
                        m - 1,
                    );
                } else {
                    vstd::arithmetic::div_mod::lemma_fundamental_div_mod_converse_div(
                        n + wi - 1,
                        wi,
                        q,
                        wi - 1,
                    );
                    assert(q > 0) by (nonlinear_arith)
                        requires
                            n == wi * q,
                            n > 0,
                            wi > 0,
                    ;
                }
            }
        }
        (w, lines)
    }

    /// Where the cursor stands, as a column and a row, counted in lengths
    /// of the buffer.
    pub fn get_cursor_pos(&self) -> (r: (usize, usize))
        requires
            self@.buffer.len() > 0,
        ensures
            r.0 == self@.cursor % (self@.buffer.len() as usize),
            r.1 == self@.cursor / (self@.buffer.len() as usize),
    {
        let x: usize = self.cursor % self.buffer.len();
        let y: usize = self.cursor / self.buffer.len();
        (x, y)
    }

    /// Draw the input at a new width.
    pub fn set_width(&mut self, new_w: usize)
        ensures
            final(self)@ == (InputState { width: new_w, ..old(self)@ }),
    {
        self.target_width = new_w;
    }
}

} // verus!
