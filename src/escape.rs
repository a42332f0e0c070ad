//! The terminal text of drawing operations: cursor moves and screen clears
//! as ANSI escape sequences written by termion, glyphs as themselves.
use vstd::prelude::*;
use crate::chars::push_char;
use crate::damage::DrawOp;

verus! {

/// The decimal digit `d`.
pub open spec fn digit(d: int) -> char {
    seq!['0', '1', '2', '3', '4', '5', '6', '7', '8', '9'][d]
}

/// `n` in decimal, with no leading zeros.
pub open spec fn decimal(n: nat) -> Seq<char>
    decreases n,
{
    if n < 10 {
        seq![digit(n as int)]
    } else {
        decimal(n / 10).push(digit((n % 10) as int))
    }
}

/// The sequence that puts the cursor at column `col`, row `row` (both from
/// one): `ESC [ row ; col H`.
pub open spec fn goto_seq(col: nat, row: nat) -> Seq<char> {
    seq!['\u{1b}', '['] + decimal(row) + seq![';'] + decimal(col) + seq!['H']
}

/// The sequence that clears the whole screen: `ESC [ 2 J`.
pub open spec fn clear_seq() -> Seq<char> {
    seq!['\u{1b}', '[', '2', 'J']
}

/// Relies on the `Display` of termion's `cursor::Goto(col, row)`, which
/// writes `ESC [ row ; col H` with both numbers in decimal, and which in a
/// debug build asserts that the two are not both zero.
#[verifier::external_body]
fn goto_code(col: u16, row: u16) -> (r: String)
    requires
        col != 0 || row != 0,
    ensures
        r@ == goto_seq(col as nat, row as nat),
{
    format!("{}", termion::cursor::Goto(col, row))
}

/// Relies on the `Display` of termion's `clear::All`, which writes
/// `ESC [ 2 J`.
#[verifier::external_body]
fn clear_code() -> (r: String)
    ensures
        r@ == clear_seq(),
{
    format!("{}", termion::clear::All)
}

/// The terminal text of one operation. Cursor positions are one-based on
/// the terminal.
pub open spec fn op_text(op: DrawOp) -> Seq<char> {
    match op {
        DrawOp::ClearScreen => clear_seq(),
        DrawOp::MoveTo { x, y } => goto_seq((x + 1) as nat, (y + 1) as nat),
        DrawOp::Glyph(c) => seq![c],
    }
}

/// The terminal text of a sequence of operations.
pub open spec fn ops_text(ops: Seq<DrawOp>) -> Seq<char>
    decreases ops.len(),
{
    if ops.len() == 0 {
        Seq::empty()
    } else {
        ops_text(ops.drop_last()) + op_text(ops.last())
    }
}

/// Whether every cursor move names a position that a terminal can address
/// (one-based coordinates are 16-bit).
pub open spec fn addressable(ops: Seq<DrawOp>) -> bool {
    forall|k: int|
        0 <= k < ops.len() ==> match #[trigger] ops[k] {
            DrawOp::MoveTo { x, y } => x < u16::MAX && y < u16::MAX,
            _ => true,
        }
}

/// The text to send to the terminal for `ops`.
pub fn encode(ops: &Vec<DrawOp>) -> (r: String)
    requires
        addressable(ops@),
    ensures
        r@ == ops_text(ops@),
{
    let mut r = String::new();
    let mut k: usize = 0;
    while k < ops.len()
        invariant
            k <= ops.len(),
            addressable(ops@),
            r@ == ops_text(ops@.take(k as int)),
        decreases ops.len() - k,
    {
        let op = ops[k];
        proof {
            assert(ops@.take(k + 1).drop_last() =~= ops@.take(k as int));
            assert(ops@.take(k + 1).last() == op);
        }
        match op {
            DrawOp::ClearScreen => {
                let code = clear_code();
                r.append(code.as_str());
            },
            DrawOp::MoveTo { x, y } => {
                let code = goto_code((x + 1) as u16, (y + 1) as u16);
                r.append(code.as_str());
            },
            DrawOp::Glyph(c) => {
                push_char(&mut r, c);
            },
        }
        k = k + 1;
    }
    proof {
        assert(ops@.take(ops.len() as int) =~= ops@);
    }
    r
}

} // verus!
