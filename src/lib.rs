//! The Playfair cipher over the 25-letter alphabet in which `J` is merged into `I`.
//!
//! Text is read as follows: it is uppercased, every character outside `A`..`Z`
//! (spaces, digits, punctuation) is dropped, and `J` becomes `I`. The same holds
//! for the key. Ciphertext is read as it stands, two letters at a time.
use vstd::prelude::*;

pub mod digraph;
pub mod playfair_cipher;
pub mod table;
pub mod text;

pub use crate::playfair_cipher::PlayfairCipther;

use crate::digraph::{decipher, decrypt_digraph, encipher, encrypt_digraph, pair_text};
use crate::table::{
    build_table, cell, in_grid, is_complete, key_order, laid_out, lemma_position,
    lemma_position_exists, position,
};
use crate::text::{
    chars_of, is_reduced_letter, lemma_normalize_idempotent, lemma_normalize_skips, normalize,
    normalize_text, push_char, to_upper, uppercase_of,
};

verus! {

/// The filler letter of [`Playfair::new`].
pub const DEFAULT_FILLER: char = 'X';

/// One row of the table as text: each letter followed by a space, then a line break.
pub open spec fn row_text(row: [char; 5]) -> Seq<char> {
    seq![row@[0], ' ', row@[1], ' ', row@[2], ' ', row@[3], ' ', row@[4], ' ', '\n']
}

/// The rows of the table as text, one per line.
pub open spec fn table_text(t: [[char; 5]; 5]) -> Seq<char> {
    row_text(t@[0]) + row_text(t@[1]) + row_text(t@[2]) + row_text(t@[3]) + row_text(t@[4])
}

/// The text that shows a cipher: its key, then its table.
pub open spec fn display_text(key: Seq<char>, t: [[char; 5]; 5]) -> Seq<char> {
    "key: "@ + key + "\ntable:\n"@ + table_text(t)
}

/// Appends one row of the table to `out`.
fn push_row(out: &mut String, row: &[char; 5])
    ensures
        final(out)@ == old(out)@ + row_text(*row),
{
    let mut i: usize = 0;
    while i < 5
        invariant
            i <= 5,
            out@ == old(out)@ + row_text(*row).take(2 * i as int),
        decreases 5 - i,
    {
        let ghost before = out@;
        push_char(out, row[i]);
        push_char(out, ' ');
        proof {
            assert(row_text(*row).take(2 * i as int + 2) =~= row_text(*row).take(2 * i as int).push(
                row@[i as int],
            ).push(' '));
            assert(out@ =~= old(out)@ + row_text(*row).take(2 * (i + 1) as int));
        }
        i = i + 1;
    }
    let ghost before = out@;
    push_char(out, '\n');
    proof {
        assert(row_text(*row) =~= row_text(*row).take(10).push('\n'));
        assert(out@ =~= old(out)@ + row_text(*row));
    }
}

/// A Playfair cipher: a key, the 5×5 table laid out from it, and the filler
/// letter that breaks up doubled letters and completes a last lone letter.
///
/// Encryption takes the letters of the text in pairs and replaces each pair:
/// two letters in one row by the letters to their right, two letters in one
/// column by the letters below them, any other two by the letters in their own
/// rows and each other's columns. Decryption goes the other way.
#[derive(Debug, PartialEq, Eq, Hash)]
pub struct Playfair {
    key: String,
    table: [[char; 5]; 5],
    filler: char,
}

impl Playfair {
    #[verifier::type_invariant]
    spec fn inv(self) -> bool {
        is_complete(self.table) && is_reduced_letter(self.filler)
    }

    /// The key the cipher was made with, as given.
    pub closed spec fn key_text(self) -> Seq<char> {
        self.key@
    }

    /// The table of the cipher.
    pub closed spec fn grid(self) -> [[char; 5]; 5] {
        self.table
    }

    /// The filler letter of the cipher.
    pub closed spec fn filler_letter(self) -> char {
        self.filler
    }

    /// A cipher for `key`, with `X` as filler.
    pub fn new(key: String) -> (p: Self)
        ensures
            p.key_text() == key@,
            laid_out(p.grid(), key_order(uppercase_of(key@))),
            is_complete(p.grid()),
            p.filler_letter() == DEFAULT_FILLER,
    {
        Self::with_filler(key, DEFAULT_FILLER)
    }

    /// A cipher for `key`, with `filler` as filler letter.
    pub fn with_filler(key: String, filler: char) -> (p: Self)
        requires
            is_reduced_letter(filler),
        ensures
            p.key_text() == key@,
            laid_out(p.grid(), key_order(uppercase_of(key@))),
            is_complete(p.grid()),
            p.filler_letter() == filler,
    {
        let table = Self::create_table(key.clone());
        Playfair { key, table, filler }
    }

    /// The table that `key` lays out: the distinct letters of the key in order
    /// of first appearance, then the rest of the alphabet, row by row.
    pub fn create_table(key: String) -> (t: [[char; 5]; 5])
        ensures
            laid_out(t, key_order(uppercase_of(key@))),
            is_complete(t),
    {
        let upper = to_upper(key.as_str());
        build_table(upper.as_str())
    }

    /// Row and column of the letter `c` in the table.
    pub fn get_index(&self, c: char) -> (rc: (usize, usize))
        requires
            is_reduced_letter(c),
        ensures
            in_grid(rc.0 as int, rc.1 as int),
            cell(self.grid(), rc.0 as int, rc.1 as int) == c,
            position(self.grid(), c) == (rc.0 as int, rc.1 as int),
    {
        proof {
            use_type_invariant(self);
        }
        let mut i: usize = 0;
        while i < 5
            invariant
                i <= 5,
                is_complete(self.table),
                forall|r: int, k: int| 0 <= r < i && 0 <= k < 5 ==> #[trigger] cell(self.table, r, k)
                    != c,
            decreases 5 - i,
        {
            let mut j: usize = 0;
            while j < 5
                invariant
                    i < 5,
                    j <= 5,
                    is_complete(self.table),
                    forall|r: int, k: int| 0 <= r < i && 0 <= k < 5 ==> #[trigger] cell(
                        self.table,
                        r,
                        k,
                    ) != c,
                    forall|k: int| 0 <= k < j ==> #[trigger] cell(self.table, i as int, k) != c,
                decreases 5 - j,
            {
                if self.table[i][j] == c {
                    proof {
                        lemma_position(self.table, c, i as int, j as int);
                    }
                    return (i, j);
                }
                j = j + 1;
            }
            i = i + 1;
        }
        proof {
            lemma_position_exists(self.table, c);
            let p = position(self.table, c);
            assert(cell(self.table, p.0, p.1) == c);
        }
        // Not reached: every letter of the reduced alphabet stands in the table.
        (0, 0)
    }

    /// The key, then the table with one row per line and a space after each letter.
    pub fn to_string(&self) -> (r: String)
        ensures
            r@ == display_text(self.key_text(), self.grid()),
    {
        let mut out = String::new();
        out.append("key: ");
        out.append(self.key.as_str());
        out.append("\ntable:\n");
        push_row(&mut out, &self.table[0]);
        push_row(&mut out, &self.table[1]);
        push_row(&mut out, &self.table[2]);
        push_row(&mut out, &self.table[3]);
        push_row(&mut out, &self.table[4]);
        proof {
            assert(out@ =~= display_text(self.key_text(), self.grid()));
        }
        out
    }

    /// The encryption of the pair `c1 c2`.
    fn encipher_pair(&self, c1: char, c2: char) -> (r: (char, char))
        requires
            is_reduced_letter(c1),
            is_reduced_letter(c2),
        ensures
            r == encrypt_digraph(self.grid(), c1, c2),
    {
        let (row1, col1) = self.get_index(c1);
        let (row2, col2) = self.get_index(c2);
        if row1 == row2 {
            (self.table[row1][(col1 + 1) % 5], self.table[row2][(col2 + 1) % 5])
        } else if col1 == col2 {
            (self.table[(row1 + 1) % 5][col1], self.table[(row2 + 1) % 5][col2])
        } else {
            (self.table[row1][col2], self.table[row2][col1])
        }
    }

    /// The decryption of the pair `c1 c2`.
    fn decipher_pair(&self, c1: char, c2: char) -> (r: (char, char))
        requires
            is_reduced_letter(c1),
            is_reduced_letter(c2),
        ensures
            r == decrypt_digraph(self.grid(), c1, c2),
    {
        let (row1, col1) = self.get_index(c1);
        let (row2, col2) = self.get_index(c2);
        if row1 == row2 {
            (self.table[row1][(col1 + 4) % 5], self.table[row2][(col2 + 4) % 5])
        } else if col1 == col2 {
            (self.table[(row1 + 4) % 5][col1], self.table[(row2 + 4) % 5][col2])
        } else {
            (self.table[row1][col2], self.table[row2][col1])
        }
    }

    /// The encryption of the pair `c1 c2`, as text.
    pub fn encrypt_pair(&self, c1: char, c2: char) -> (r: String)
        requires
            is_reduced_letter(c1),
            is_reduced_letter(c2),
        ensures
            r@ == pair_text(encrypt_digraph(self.grid(), c1, c2)),
    {
        let (x, y) = self.encipher_pair(c1, c2);
        let mut out = String::new();
        push_char(&mut out, x);
        push_char(&mut out, y);
        proof {
            assert(out@ =~= pair_text((x, y)));
        }
        out
    }

    /// The decryption of the pair `c1 c2`, as text.
    pub fn decrypt_pair(&self, c1: char, c2: char) -> (r: String)
        requires
            is_reduced_letter(c1),
            is_reduced_letter(c2),
        ensures
            r@ == pair_text(decrypt_digraph(self.grid(), c1, c2)),
    {
        let (x, y) = self.decipher_pair(c1, c2);
        let mut out = String::new();
        push_char(&mut out, x);
        push_char(&mut out, y);
        proof {
            assert(out@ =~= pair_text((x, y)));
        }
        out
    }

    /// Encrypts `plain_text`: it is uppercased, then read as
    /// [`Playfair::encrypt_uppercase`] reads it.
    pub fn encrypt(&self, plain_text: String) -> (r: String)
        ensures
            r@ == encipher(self.grid(), self.filler_letter(), normalize(uppercase_of(plain_text@))),
    {
        let upper = to_upper(plain_text.as_str());
        self.encrypt_uppercase(upper.as_str())
    }

    /// Encrypts an uppercased text: its letters are normalized, cut into pairs
    /// (a doubled letter or a last lone letter gets the filler as partner) and
    /// each pair is replaced by its encryption.
    pub fn encrypt_uppercase(&self, upper_text: &str) -> (r: String)
        ensures
            r@ == encipher(self.grid(), self.filler_letter(), normalize(upper_text@)),
            r@.len() % 2 == 0,
            r@.len() >= normalize(upper_text@).len(),
    {
        proof {
            use_type_invariant(self);
            crate::digraph::lemma_encipher_length(self.table, self.filler, normalize(upper_text@));
            crate::text::lemma_normalize_letters(upper_text@);
        }
        let letters = normalize_text(upper_text);
        let ghost s = letters@;
        let ghost t = self.table;
        let f = self.filler;
        let n = letters.len();
        let mut out = String::new();
        let mut i: usize = 0;
        proof {
            assert(s.subrange(0, n as int) =~= s);
        }
        while i < n
            invariant
                letters@ == s,
                n == s.len(),
                i <= n,
                t == self.table,
                f == self.filler,
                is_reduced_letter(f),
                forall|k: int| 0 <= k < s.len() ==> is_reduced_letter(#[trigger] s[k]),
                out@ + encipher(t, f, s.subrange(i as int, n as int)) == encipher(t, f, s),
            decreases n - i,
        {
            let ghost rest = s.subrange(i as int, n as int);
            let a = letters[i];
            let pair: (char, char);
            if i + 1 < n && letters[i + 1] != a {
                pair = self.encipher_pair(a, letters[i + 1]);
                proof {
                    assert(rest.subrange(2, rest.len() as int) =~= s.subrange(i + 2, n as int));
                }
                i = i + 2;
            } else {
                pair = self.encipher_pair(a, f);
                proof {
                    assert(rest.drop_first() =~= s.subrange(i + 1, n as int));
                }
                i = i + 1;
            }
            let ghost before = out@;
            push_char(&mut out, pair.0);
            push_char(&mut out, pair.1);
            proof {
                assert(out@ =~= before + pair_text(pair));
                assert(out@ + encipher(t, f, s.subrange(i as int, n as int)) =~= before + encipher(
                    t,
                    f,
                    rest,
                ));
            }
        }
        proof {
            assert(out@ + encipher(t, f, s.subrange(n as int, n as int)) =~= out@);
        }
        out
    }

    /// Decrypts `cipher_text`, two letters at a time, while two letters of the
    /// reduced alphabet come next: the text is not normalized, and whatever
    /// follows the first malformed pair, or a lone last character, is left out.
    pub fn decrypt(&self, cipher_text: String) -> (r: String)
        ensures
            r@ == decipher(self.grid(), cipher_text@),
    {
        let chars = chars_of(cipher_text.as_str());
        let ghost s = chars@;
        let ghost t = self.table;
        let n = chars.len();
        let mut out = String::new();
        let mut i: usize = 0;
        proof {
            assert(s.subrange(0, n as int) =~= s);
        }
        while n - i >= 2 && is_letter(chars[i]) && is_letter(chars[i + 1])
            invariant
                chars@ == s,
                s == cipher_text@,
                n == s.len(),
                i <= n,
                t == self.table,
                out@ + decipher(t, s.subrange(i as int, n as int)) == decipher(t, s),
            decreases n - i,
        {
            let ghost rest = s.subrange(i as int, n as int);
            let pair = self.decipher_pair(chars[i], chars[i + 1]);
            proof {
                assert(rest.subrange(2, rest.len() as int) =~= s.subrange(i + 2, n as int));
            }
            i = i + 2;
            let ghost before = out@;
            push_char(&mut out, pair.0);
            push_char(&mut out, pair.1);
            proof {
                assert(out@ =~= before + pair_text(pair));
                assert(out@ + decipher(t, s.subrange(i as int, n as int)) =~= before + decipher(
                    t,
                    rest,
                ));
            }
        }
        proof {
            let rest = s.subrange(i as int, n as int);
            assert(decipher(t, rest) =~= Seq::<char>::empty());
            assert(out@ + decipher(t, rest) =~= out@);
        }
        out
    }
}

/// Encryption reads only the normalized letters of a text: normalizing it
/// first changes nothing, and a character outside `A`..`Z`, such as a space,
/// can stand anywhere in it without changing the ciphertext.
pub proof fn lemma_normalization_ignored(
    t: [[char; 5]; 5],
    f: char,
    u: Seq<char>,
    a: Seq<char>,
    c: char,
    b: Seq<char>,
)
    requires
        !('A' <= c <= 'Z'),
    ensures
        encipher(t, f, normalize(normalize(u))) == encipher(t, f, normalize(u)),
        encipher(t, f, normalize(a + seq![c] + b)) == encipher(t, f, normalize(a + b)),
{
    lemma_normalize_idempotent(u);
    lemma_normalize_skips(a, c, b);
}

/// Whether `c` is a letter of the reduced alphabet.
fn is_letter(c: char) -> (r: bool)
    ensures
        r == is_reduced_letter(c),
{
    'A' <= c && c <= 'Z' && c != 'J'
}

} // verus!
