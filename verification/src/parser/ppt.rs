//! Text fragments recovered from the bytes of a binary PowerPoint file: runs of
//! printable bytes that end in at least two letters or digits.
use vstd::prelude::*;

use crate::text::{char_views, is_ws, trim, trimmed};

verus! {

/// Whether the character of number `b` is alphanumeric (`char::is_alphanumeric`
/// on the Latin-1 range): ASCII letters and digits, `ª ² ³ µ ¹ º ¼ ½ ¾`, and
/// the letters `À`–`ÿ` other than `×` and `÷`.
pub open spec fn latin1_alnum(b: u8) -> bool {
    (0x30 <= b && b <= 0x39) || (0x41 <= b && b <= 0x5A) || (0x61 <= b && b <= 0x7A) || b == 0xAA
        || b == 0xB2 || b == 0xB3 || b == 0xB5 || b == 0xB9 || b == 0xBA || (0xBC <= b && b
        <= 0xBE) || (0xC0 <= b && b <= 0xD6) || (0xD8 <= b && b <= 0xF6) || 0xF8 <= b
}

/// Executable `latin1_alnum`.
pub fn latin1_alnum_exec(b: u8) -> (r: bool)
    ensures
        r == latin1_alnum(b),
{
    (0x30 <= b && b <= 0x39) || (0x41 <= b && b <= 0x5A) || (0x61 <= b && b <= 0x7A) || b == 0xAA
        || b == 0xB2 || b == 0xB3 || b == 0xB5 || b == 0xB9 || b == 0xBA || (0xBC <= b && b
        <= 0xBE) || (0xC0 <= b && b <= 0xD6) || (0xD8 <= b && b <= 0xF6) || 0xF8 <= b
}

/// The bytes that count as text: from 32 up, and alphanumeric, White_Space or
/// one of `. , ! ? ( ) - : " ' ;`.
pub open spec fn ppt_printable(b: u8) -> bool {
    b >= 32 && (latin1_alnum(b) || is_ws(b as char) || b == 0x2E || b == 0x2C || b == 0x21 || b
        == 0x3F || b == 0x28 || b == 0x29 || b == 0x2D || b == 0x3A || b == 0x22 || b == 0x27 || b
        == 0x3B)
}

/// Executable `ppt_printable`.
fn ppt_printable_exec(b: u8) -> (r: bool)
    ensures
        r == ppt_printable(b),
{
    b >= 32 && (latin1_alnum_exec(b) || b == 0x20 || b == 0x85 || b == 0xA0 || b == 0x2E || b
        == 0x2C || b == 0x21 || b == 0x3F || b == 0x28 || b == 0x29 || b == 0x2D || b == 0x3A || b
        == 0x22 || b == 0x27 || b == 0x3B)
}

/// The scan over the bytes: the fragments kept so far, the current run of
/// printable bytes as characters, and how many letters or digits end it.
pub open spec fn ppt_scan(b: Seq<u8>) -> (Seq<Seq<char>>, Seq<char>, nat)
    decreases b.len(),
{
    if b.len() == 0 {
        (Seq::empty(), Seq::empty(), 0)
    } else {
        let (parts, cur, run) = ppt_scan(b.drop_last());
        let x = b.last();
        if ppt_printable(x) {
            (parts, cur.push(x as char), if latin1_alnum(x) {
                run + 1
            } else {
                0
            })
        } else {
            (if run >= 2 {
                parts.push(trim(cur))
            } else {
                parts
            }, Seq::empty(), 0)
        }
    }
}

/// The fragments of text found in the bytes, trimmed, in order.
pub open spec fn ppt_fragments(b: Seq<u8>) -> Seq<Seq<char>> {
    let (parts, cur, run) = ppt_scan(b);
    if run >= 2 {
        parts.push(trim(cur))
    } else {
        parts
    }
}

} // verus!
verus! {

/// The text fragments of a binary PowerPoint file's bytes (see `ppt_fragments`).
pub fn ppt_fragments_exec(bytes: &[u8]) -> (r: Vec<Vec<char>>)
    ensures
        char_views(r@) == ppt_fragments(bytes@),
{
    let mut parts: Vec<Vec<char>> = Vec::new();
    let mut cur: Vec<char> = Vec::new();
    let mut run: usize = 0;
    let mut i: usize = 0;
    assert(bytes@.take(0) =~= Seq::<u8>::empty());
    while i < bytes.len()
        invariant
            i <= bytes@.len(),
            run <= i,
            (char_views(parts@), cur@, run as nat) == ppt_scan(bytes@.take(i as int)),
        decreases bytes@.len() - i,
    {
        let b = bytes[i];
        proof {
            assert(bytes@.take(i + 1).drop_last() =~= bytes@.take(i as int));
        }
        if ppt_printable_exec(b) {
            cur.push(b as char);
            run = if latin1_alnum_exec(b) {
                run + 1
            } else {
                0
            };
        } else {
            if run >= 2 {
                let ghost before = char_views(parts@);
                let t = trimmed(&cur);
                parts.push(t);
                assert(char_views(parts@) =~= before.push(trim(cur@)));
            }
            cur = Vec::new();
            run = 0;
        }
        i = i + 1;
    }
    assert(bytes@.take(bytes@.len() as int) =~= bytes@);
    if run >= 2 {
        let ghost before = char_views(parts@);
        let t = trimmed(&cur);
        parts.push(t);
        assert(char_views(parts@) =~= before.push(trim(cur@)));
    }
    parts
}

} // verus!
verus! {

/// The fragments of a binary PowerPoint file joined line by line.
pub open spec fn ppt_joined(b: Seq<u8>) -> Seq<char> {
    crate::text::join(ppt_fragments(b), seq!['\n'])
}

/// The fragments of a binary PowerPoint file joined line by line (see `ppt_joined`).
pub fn ppt_joined_exec(bytes: &[u8]) -> (r: Vec<char>)
    ensures
        r@ == ppt_joined(bytes@),
{
    let parts = ppt_fragments_exec(bytes);
    let sep: Vec<char> = vec!['\n'];
    assert(sep@ =~= seq!['\n']);
    crate::text::join_parts(&parts, &sep)
}

} // verus!
