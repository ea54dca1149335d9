//! The 5×5 table that a key lays out.
use vstd::prelude::*;
use crate::text::{is_reduced_letter, normalize, normalize_text, lemma_normalize_letters};

verus! {

/// The `i`-th letter of the reduced alphabet, in order from `A` to `Z`.
pub open spec fn alphabet_letter(i: int) -> char {
    if i < 9 {
        (65 + i) as char
    } else {
        (66 + i) as char
    }
}

/// The reduced alphabet `A B C D E F G H I K ... Z`, without `J`.
pub open spec fn alphabet() -> Seq<char> {
    Seq::new(25, |i: int| alphabet_letter(i))
}

/// The letters of `s` in order of first appearance, each once.
pub open spec fn dedup(s: Seq<char>) -> Seq<char>
    decreases s.len(),
{
    if s.len() == 0 {
        Seq::empty()
    } else {
        let d = dedup(s.drop_last());
        if d.contains(s.last()) {
            d
        } else {
            d.push(s.last())
        }
    }
}

/// The distinct letters of the normalized key, in order of first appearance.
pub open spec fn key_letters(upper_key: Seq<char>) -> Seq<char> {
    dedup(normalize(upper_key))
}

/// The 25 letters of the table in row-major order: the key's letters first,
/// then the rest of the alphabet in alphabetical order.
pub open spec fn key_order(upper_key: Seq<char>) -> Seq<char> {
    dedup(normalize(upper_key) + alphabet())
}

/// The letter in row `r` and column `c`.
pub open spec fn cell(t: [[char; 5]; 5], r: int, c: int) -> char {
    t@[r]@[c]
}

/// Whether `r` and `c` name a cell of the table.
pub open spec fn in_grid(r: int, c: int) -> bool {
    0 <= r < 5 && 0 <= c < 5
}

/// The table holds `order` row by row: index `i` is row `i / 5`, column `i % 5`.
pub open spec fn laid_out(t: [[char; 5]; 5], order: Seq<char>) -> bool {
    forall|r: int, c: int| in_grid(r, c) ==> #[trigger] cell(t, r, c) == order[5 * r + c]
}

/// The table holds each letter of the reduced alphabet exactly once and nothing else.
pub open spec fn is_complete(t: [[char; 5]; 5]) -> bool {
    &&& forall|r: int, c: int| in_grid(r, c) ==> is_reduced_letter(#[trigger] cell(t, r, c))
    &&& forall|ch: char|
        is_reduced_letter(ch) ==> exists|r: int, c: int| in_grid(r, c) && #[trigger] cell(t, r, c) == ch
    &&& forall|r1: int, c1: int, r2: int, c2: int|
        in_grid(r1, c1) && in_grid(r2, c2) && #[trigger] cell(t, r1, c1) == #[trigger] cell(t, r2, c2)
            ==> r1 == r2 && c1 == c2
}

/// Row and column of `ch` in the table.
pub open spec fn position(t: [[char; 5]; 5], ch: char) -> (int, int) {
    choose|p: (int, int)| in_grid(p.0, p.1) && cell(t, p.0, p.1) == ch
}

/// In a complete table a letter stands in one cell only: `position` names it.
pub proof fn lemma_position(t: [[char; 5]; 5], ch: char, r: int, c: int)
    requires
        is_complete(t),
        in_grid(r, c),
        cell(t, r, c) == ch,
    ensures
        position(t, ch) == (r, c),
{
    let w = (r, c);
    assert(in_grid(w.0, w.1) && cell(t, w.0, w.1) == ch);
    let p = position(t, ch);
    assert(in_grid(p.0, p.1) && cell(t, p.0, p.1) == ch);
}

/// Every letter of a complete table has a position in it.
pub proof fn lemma_position_exists(t: [[char; 5]; 5], ch: char)
    requires
        is_complete(t),
        is_reduced_letter(ch),
    ensures
        in_grid(position(t, ch).0, position(t, ch).1),
        cell(t, position(t, ch).0, position(t, ch).1) == ch,
{
    let (r, c) = choose|r: int, c: int| in_grid(r, c) && #[trigger] cell(t, r, c) == ch;
    lemma_position(t, ch, r, c);
}

proof fn lemma_alphabet(c: char)
    ensures
        alphabet().contains(c) <==> is_reduced_letter(c),
{
    if is_reduced_letter(c) {
        let i: int = if (c as int) < 74 { c as int - 65 } else { c as int - 66 };
        assert(alphabet()[i] == c);
    }
    if alphabet().contains(c) {
        let i = choose|i: int| 0 <= i < 25 && alphabet()[i] == c;
        assert(is_reduced_letter(alphabet()[i]));
    }
}

proof fn lemma_alphabet_distinct()
    ensures
        alphabet().no_duplicates(),
{
    assert forall|i: int, j: int| 0 <= i < 25 && 0 <= j < 25 && i != j implies alphabet()[i]
        != alphabet()[j] by {
        assert(alphabet()[i] as int == if i < 9 { 65 + i } else { 66 + i });
        assert(alphabet()[j] as int == if j < 9 { 65 + j } else { 66 + j });
    }
}

/// `dedup` keeps each letter of its input once and adds none.
pub proof fn lemma_dedup(s: Seq<char>)
    ensures
        dedup(s).no_duplicates(),
        forall|x: char| dedup(s).contains(x) <==> s.contains(x),
    decreases s.len(),
{
    if s.len() > 0 {
        let rest = s.drop_last();
        lemma_dedup(rest);
        let d = dedup(rest);
        assert forall|x: char| dedup(s).contains(x) <==> s.contains(x) by {
            if s.contains(x) {
                let i = choose|i: int| 0 <= i < s.len() && s[i] == x;
                if i < s.len() - 1 {
                    assert(rest[i] == x);
                    assert(rest.contains(x));
                    assert(d.contains(x));
                    let j = choose|j: int| 0 <= j < d.len() && d[j] == x;
                    assert(dedup(s)[j] == x);
                } else if !d.contains(x) {
                    assert(dedup(s)[d.len() as int] == x);
                } else {
                    let j = choose|j: int| 0 <= j < d.len() && d[j] == x;
                    assert(dedup(s)[j] == x);
                }
            }
            if dedup(s).contains(x) {
                let j = choose|j: int| 0 <= j < dedup(s).len() && dedup(s)[j] == x;
                if j < d.len() {
                    assert(d[j] == x);
                    assert(rest.contains(x));
                    let i = choose|i: int| 0 <= i < rest.len() && rest[i] == x;
                    assert(s[i] == x);
                } else {
                    assert(s[s.len() - 1] == x);
                }
            }
        }
    }
}

/// What `dedup` makes of a prefix is a prefix of what it makes of the whole.
pub proof fn lemma_dedup_prefix(a: Seq<char>, b: Seq<char>)
    ensures
        dedup(a).len() <= dedup(a + b).len(),
        dedup(a + b).take(dedup(a).len() as int) == dedup(a),
    decreases b.len(),
{
    if b.len() == 0 {
        assert(a + b =~= a);
    } else {
        lemma_dedup_prefix(a, b.drop_last());
        assert((a + b).drop_last() =~= a + b.drop_last());
        assert(dedup(a + b).take(dedup(a).len() as int) =~= dedup(a));
    }
}

/// The table order of any key holds each letter of the reduced alphabet once.
pub proof fn lemma_key_order(upper_key: Seq<char>)
    ensures
        key_order(upper_key).len() == 25,
        key_order(upper_key).no_duplicates(),
        forall|x: char| key_order(upper_key).contains(x) <==> is_reduced_letter(x),
{
    let n = normalize(upper_key);
    let all = n + alphabet();
    let k = key_order(upper_key);
    lemma_dedup(all);
    lemma_normalize_letters(upper_key);
    lemma_alphabet_distinct();
    assert forall|x: char| k.contains(x) <==> is_reduced_letter(x) by {
        lemma_alphabet(x);
        if all.contains(x) {
            let i = choose|i: int| 0 <= i < all.len() && all[i] == x;
            if i < n.len() {
                assert(n[i] == x);
            } else {
                assert(alphabet()[i - n.len()] == x);
            }
        }
        if alphabet().contains(x) {
            let i = choose|i: int| 0 <= i < 25 && alphabet()[i] == x;
            assert(all[n.len() + i] == x);
        }
    }
    assert forall|x: char| k.contains(x) <==> alphabet().contains(x) by {
        lemma_alphabet(x);
    }
    assert(k.to_set() =~= alphabet().to_set());
    k.unique_seq_to_set();
    alphabet().unique_seq_to_set();
}

/// The table of a key begins, row by row, with the distinct letters of the
/// normalized key in order of first appearance.
pub proof fn lemma_key_prefix(t: [[char; 5]; 5], upper_key: Seq<char>)
    requires
        laid_out(t, key_order(upper_key)),
    ensures
        key_letters(upper_key).len() <= 25,
        forall|r: int, c: int|
            in_grid(r, c) && 5 * r + c < key_letters(upper_key).len() ==> #[trigger] cell(t, r, c)
                == key_letters(upper_key)[5 * r + c],
{
    lemma_key_order(upper_key);
    lemma_dedup_prefix(normalize(upper_key), alphabet());
    let k = key_letters(upper_key);
    assert forall|r: int, c: int| in_grid(r, c) && 5 * r + c < k.len() implies #[trigger] cell(t, r, c)
        == k[5 * r + c] by {
        assert(key_order(upper_key).take(k.len() as int)[5 * r + c] == k[5 * r + c]);
    }
}

/// A table that holds the order of a key is complete.
pub proof fn lemma_laid_out_complete(t: [[char; 5]; 5], upper_key: Seq<char>)
    requires
        laid_out(t, key_order(upper_key)),
    ensures
        is_complete(t),
{
    let k = key_order(upper_key);
    lemma_key_order(upper_key);
    assert forall|r: int, c: int| in_grid(r, c) implies is_reduced_letter(#[trigger] cell(t, r, c)) by {
        assert(k.contains(k[5 * r + c]));
    }
    assert forall|ch: char| is_reduced_letter(ch) implies exists|r: int, c: int|
        in_grid(r, c) && #[trigger] cell(t, r, c) == ch by {
        assert(k.contains(ch));
        let i = choose|i: int| 0 <= i < 25 && k[i] == ch;
        let r = i / 5;
        let c = i % 5;
        assert(in_grid(r, c) && 5 * r + c == i);
        assert(cell(t, r, c) == ch);
    }
    assert forall|r1: int, c1: int, r2: int, c2: int|
        in_grid(r1, c1) && in_grid(r2, c2) && #[trigger] cell(t, r1, c1) == #[trigger] cell(t, r2, c2)
        implies r1 == r2 && c1 == c2 by {
        assert(k[5 * r1 + c1] == k[5 * r2 + c2]);
    }
}

/// Whether `c` is among the letters of `v`.
fn contains_letter(v: &Vec<char>, c: char) -> (r: bool)
    ensures
        r == v@.contains(c),
{
    let mut i: usize = 0;
    while i < v.len()
        invariant
            i <= v.len(),
            forall|j: int| 0 <= j < i ==> v@[j] != c,
        decreases v.len() - i,
    {
        if v[i] == c {
            return true;
        }
        i = i + 1;
    }
    false
}

/// Appends to `order` each letter of `letters` that it does not hold yet.
fn append_new_letters(order: &mut Vec<char>, letters: &Vec<char>, Ghost(before): Ghost<Seq<char>>)
    requires
        old(order)@ == dedup(before),
    ensures
        final(order)@ == dedup(before + letters@),
{
    let mut i: usize = 0;
    while i < letters.len()
        invariant
            i <= letters.len(),
            order@ == dedup(before + letters@.take(i as int)),
        decreases letters.len() - i,
    {
        let c = letters[i];
        proof {
            assert((before + letters@.take(i as int + 1)).drop_last() =~= before + letters@.take(
                i as int,
            ));
        }
        if !contains_letter(order, c) {
            order.push(c);
        }
        i = i + 1;
    }
    proof {
        assert(letters@.take(i as int) =~= letters@);
    }
}

/// The table that an uppercased key lays out: the key's letters in order of
/// first appearance, then the rest of the alphabet, row by row.
pub fn build_table(upper_key: &str) -> (t: [[char; 5]; 5])
    ensures
        laid_out(t, key_order(upper_key@)),
        is_complete(t),
{
    let norm = normalize_text(upper_key);
    let mut order: Vec<char> = Vec::new();
    proof {
        assert(Seq::<char>::empty() + Seq::<char>::empty() =~= Seq::<char>::empty());
    }
    append_new_letters(&mut order, &norm, Ghost(Seq::empty()));
    proof {
        assert(Seq::<char>::empty() + norm@ =~= norm@);
    }
    let alpha: Vec<char> = vec![
        'A', 'B', 'C', 'D', 'E', 'F', 'G', 'H', 'I', 'K', 'L', 'M', 'N', 'O', 'P', 'Q', 'R', 'S',
        'T', 'U', 'V', 'W', 'X', 'Y', 'Z',
    ];
    proof {
        assert(alpha@ =~= alphabet());
    }
    append_new_letters(&mut order, &alpha, Ghost(norm@));
    proof {
        lemma_key_order(upper_key@);
    }
    let t: [[char; 5]; 5] = [
        [order[0], order[1], order[2], order[3], order[4]],
        [order[5], order[6], order[7], order[8], order[9]],
        [order[10], order[11], order[12], order[13], order[14]],
        [order[15], order[16], order[17], order[18], order[19]],
        [order[20], order[21], order[22], order[23], order[24]],
    ];
    proof {
        assert forall|r: int, c: int| in_grid(r, c) implies #[trigger] cell(t, r, c) == order@[5
            * r + c] by {
            assert(t@[r]@[c] == order@[5 * r + c]);
        }
        lemma_laid_out_complete(t, upper_key@);
    }
    t
}

} // verus!
