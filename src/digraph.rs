//! The substitution rules for letter pairs, and how a message is cut into pairs.
use vstd::prelude::*;
use crate::table::{cell, in_grid, is_complete, position, lemma_position, lemma_position_exists};
use crate::text::is_reduced_letter;

verus! {

/// The two letters of a pair, as text.
pub open spec fn pair_text(p: (char, char)) -> Seq<char> {
    seq![p.0, p.1]
}

/// Encryption of the letters at `pa` and `pb`: same row, each moves one column
/// right; same column, each moves one row down; otherwise each takes its
/// partner's column. Rows and columns wrap around.
pub open spec fn encrypt_at(t: [[char; 5]; 5], pa: (int, int), pb: (int, int)) -> (char, char) {
    if pa.0 == pb.0 {
        (cell(t, pa.0, (pa.1 + 1) % 5), cell(t, pb.0, (pb.1 + 1) % 5))
    } else if pa.1 == pb.1 {
        (cell(t, (pa.0 + 1) % 5, pa.1), cell(t, (pb.0 + 1) % 5, pb.1))
    } else {
        (cell(t, pa.0, pb.1), cell(t, pb.0, pa.1))
    }
}

/// Decryption of the letters at `pa` and `pb`: same row, each moves one column
/// left; same column, each moves one row up; otherwise each takes its
/// partner's column. Rows and columns wrap around.
pub open spec fn decrypt_at(t: [[char; 5]; 5], pa: (int, int), pb: (int, int)) -> (char, char) {
    if pa.0 == pb.0 {
        (cell(t, pa.0, (pa.1 + 4) % 5), cell(t, pb.0, (pb.1 + 4) % 5))
    } else if pa.1 == pb.1 {
        (cell(t, (pa.0 + 4) % 5, pa.1), cell(t, (pb.0 + 4) % 5, pb.1))
    } else {
        (cell(t, pa.0, pb.1), cell(t, pb.0, pa.1))
    }
}

/// The encryption of the pair `a b`.
pub open spec fn encrypt_digraph(t: [[char; 5]; 5], a: char, b: char) -> (char, char) {
    encrypt_at(t, position(t, a), position(t, b))
}

/// The decryption of the pair `a b`.
pub open spec fn decrypt_digraph(t: [[char; 5]; 5], a: char, b: char) -> (char, char) {
    decrypt_at(t, position(t, a), position(t, b))
}

/// Encryption of normalized letters: they are taken in pairs from the left; a
/// letter followed by the same letter, or by nothing, is paired with the filler
/// `f` and the letter after it starts the next pair.
pub open spec fn encipher(t: [[char; 5]; 5], f: char, s: Seq<char>) -> Seq<char>
    decreases s.len(),
{
    if s.len() == 0 {
        Seq::empty()
    } else if s.len() == 1 || s[0] == s[1] {
        pair_text(encrypt_digraph(t, s[0], f)) + encipher(t, f, s.drop_first())
    } else {
        pair_text(encrypt_digraph(t, s[0], s[1])) + encipher(t, f, s.subrange(2, s.len() as int))
    }
}

/// Decryption of a ciphertext, two letters at a time, as long as two letters of
/// the reduced alphabet come next; what follows the first malformed pair, or a
/// lone last character, is left out.
pub open spec fn decipher(t: [[char; 5]; 5], s: Seq<char>) -> Seq<char>
    decreases s.len(),
{
    if s.len() >= 2 && is_reduced_letter(s[0]) && is_reduced_letter(s[1]) {
        pair_text(decrypt_digraph(t, s[0], s[1])) + decipher(t, s.subrange(2, s.len() as int))
    } else {
        Seq::empty()
    }
}

/// A ciphertext has even length and is at least as long as the letters it
/// encrypts: each filler adds one letter.
pub proof fn lemma_encipher_length(t: [[char; 5]; 5], f: char, s: Seq<char>)
    ensures
        encipher(t, f, s).len() % 2 == 0,
        encipher(t, f, s).len() >= s.len(),
    decreases s.len(),
{
    if s.len() == 0 {
    } else if s.len() == 1 || s[0] == s[1] {
        lemma_encipher_length(t, f, s.drop_first());
    } else {
        lemma_encipher_length(t, f, s.subrange(2, s.len() as int));
    }
}

proof fn lemma_wrap(c: int)
    requires
        0 <= c < 5,
    ensures
        0 <= (c + 1) % 5 < 5,
        0 <= (c + 4) % 5 < 5,
        ((c + 1) % 5 + 4) % 5 == c,
        ((c + 4) % 5 + 1) % 5 == c,
        c == 4 ==> (c + 1) % 5 == 0,
        c == 0 ==> (c + 4) % 5 == 4,
{
}

/// Decryption undoes encryption on every pair of letters: the rule used on the
/// way back is the one that was used on the way in.
pub proof fn lemma_pair_round_trip(t: [[char; 5]; 5], a: char, b: char)
    requires
        is_complete(t),
        is_reduced_letter(a),
        is_reduced_letter(b),
    ensures
        decrypt_digraph(t, encrypt_digraph(t, a, b).0, encrypt_digraph(t, a, b).1) == (a, b),
{
    lemma_position_exists(t, a);
    lemma_position_exists(t, b);
    let (r1, c1) = position(t, a);
    let (r2, c2) = position(t, b);
    let e = encrypt_digraph(t, a, b);
    lemma_wrap(r1);
    lemma_wrap(r2);
    lemma_wrap(c1);
    lemma_wrap(c2);
    if r1 == r2 {
        lemma_position(t, e.0, r1, (c1 + 1) % 5);
        lemma_position(t, e.1, r2, (c2 + 1) % 5);
    } else if c1 == c2 {
        lemma_position(t, e.0, (r1 + 1) % 5, c1);
        lemma_position(t, e.1, (r2 + 1) % 5, c2);
    } else {
        lemma_position(t, e.0, r1, c2);
        lemma_position(t, e.1, r2, c1);
    }
}

/// On a pair whose letters share neither row nor column, encryption and
/// decryption are the same map, and applying it twice gives the pair back.
pub proof fn lemma_rectangle_involution(t: [[char; 5]; 5], a: char, b: char)
    requires
        is_complete(t),
        is_reduced_letter(a),
        is_reduced_letter(b),
        position(t, a).0 != position(t, b).0,
        position(t, a).1 != position(t, b).1,
    ensures
        decrypt_digraph(t, a, b) == encrypt_digraph(t, a, b),
        encrypt_digraph(t, encrypt_digraph(t, a, b).0, encrypt_digraph(t, a, b).1) == (a, b),
        decrypt_digraph(t, encrypt_digraph(t, a, b).0, encrypt_digraph(t, a, b).1) == (a, b),
{
    lemma_position_exists(t, a);
    lemma_position_exists(t, b);
    let (r1, c1) = position(t, a);
    let (r2, c2) = position(t, b);
    let e = encrypt_digraph(t, a, b);
    lemma_position(t, e.0, r1, c2);
    lemma_position(t, e.1, r2, c1);
}

/// Same row: encryption takes a letter in the last column to the first column
/// of that row, and decryption takes a letter in the first column to the last.
/// Same column: encryption takes a letter in the last row to the first row,
/// and decryption takes a letter in the first row to the last.
pub proof fn lemma_wraparound(t: [[char; 5]; 5], a: char, b: char)
    requires
        is_complete(t),
        is_reduced_letter(a),
        is_reduced_letter(b),
    ensures
        position(t, a).0 == position(t, b).0 && position(t, a).1 == 4 ==> encrypt_digraph(t, a, b).0
            == cell(t, position(t, a).0, 0),
        position(t, a).0 == position(t, b).0 && position(t, a).1 == 0 ==> decrypt_digraph(t, a, b).0
            == cell(t, position(t, a).0, 4),
        position(t, a).0 != position(t, b).0 && position(t, a).1 == position(t, b).1
            && position(t, a).0 == 4 ==> encrypt_digraph(t, a, b).0 == cell(t, 0, position(t, a).1),
        position(t, a).0 != position(t, b).0 && position(t, a).1 == position(t, b).1
            && position(t, a).0 == 0 ==> decrypt_digraph(t, a, b).0 == cell(t, 4, position(t, a).1),
{
    lemma_position_exists(t, a);
    lemma_wrap(position(t, a).0);
    lemma_wrap(position(t, a).1);
}

} // verus!
