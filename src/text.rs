//! Characters of the cipher's alphabet and the normalization of text.
use vstd::prelude::*;

verus! {

/// Whether `c` is one of the 25 letters of the cipher's alphabet: `A` to `Z` without `J`.
pub open spec fn is_reduced_letter(c: char) -> bool {
    'A' <= c <= 'Z' && c != 'J'
}

/// The letter that `c` stands for once `J` is merged into `I`.
pub open spec fn merge_j(c: char) -> char {
    if c == 'J' {
        'I'
    } else {
        c
    }
}

/// The letters that the cipher reads from an uppercased text: every character
/// outside `A`..`Z` (spaces, digits, punctuation) is dropped, and `J` becomes `I`.
pub open spec fn normalize(s: Seq<char>) -> Seq<char> {
    s.filter_map(|c: char| if 'A' <= c <= 'Z' { Some(merge_j(c)) } else { None })
}

/// What `str::to_uppercase` makes of a text.
pub uninterp spec fn uppercase_of(s: Seq<char>) -> Seq<char>;

/// Relies on `str::to_uppercase`: the uppercase form of `s`, which depends on
/// the characters of `s` alone.
#[verifier::external_body]
pub(crate) fn to_upper(s: &str) -> (r: String)
    ensures
        r@ == uppercase_of(s@),
{
    s.to_uppercase()
}

/// Relies on `String::push`: appends `c` at the end of `s`.
#[verifier::external_body]
pub(crate) fn push_char(s: &mut String, c: char)
    ensures
        final(s)@ == old(s)@.push(c),
{
    s.push(c);
}

/// The characters of `text`, one by one.
pub(crate) fn chars_of(text: &str) -> (r: Vec<char>)
    ensures
        r@ == text@,
{
    let mut out: Vec<char> = Vec::new();
    for c in it: text.chars()
        invariant
            it.seq() == text@,
            out@ == text@.take(it.index() as int),
    {
        proof {
            assert(text@.take(it.index() as int + 1) =~= out@.push(c));
        }
        out.push(c);
    }
    proof {
        assert(out@ =~= text@);
    }
    out
}

/// The normalized letters of an uppercased text.
pub(crate) fn normalize_text(text: &str) -> (r: Vec<char>)
    ensures
        r@ == normalize(text@),
{
    let chars = chars_of(text);
    let mut out: Vec<char> = Vec::new();
    let mut i: usize = 0;
    while i < chars.len()
        invariant
            chars@ == text@,
            i <= chars.len(),
            out@ == normalize(text@.take(i as int)),
        decreases chars.len() - i,
    {
        let c = chars[i];
        proof {
            assert(text@.take(i as int + 1).drop_last() =~= text@.take(i as int));
        }
        if 'A' <= c && c <= 'Z' {
            if c == 'J' {
                out.push('I');
            } else {
                out.push(c);
            }
        }
        proof {
            assert(out@ =~= normalize(text@.take(i as int + 1)));
        }
        i = i + 1;
    }
    proof {
        assert(text@.take(i as int) =~= text@);
    }
    out
}

/// One step of normalization, at the last character.
proof fn lemma_normalize_step(s: Seq<char>)
    ensures
        s.len() == 0 ==> normalize(s) == Seq::<char>::empty(),
        s.len() > 0 && 'A' <= s.last() <= 'Z' ==> normalize(s) == normalize(s.drop_last()).push(
            merge_j(s.last()),
        ),
        s.len() > 0 && !('A' <= s.last() <= 'Z') ==> normalize(s) == normalize(s.drop_last()),
{
    if s.len() > 0 {
        let c = s.last();
        if 'A' <= c <= 'Z' {
            assert(normalize(s.drop_last()) + seq![merge_j(c)] =~= normalize(s.drop_last()).push(
                merge_j(c),
            ));
        }
    } else {
        assert(normalize(s) =~= Seq::<char>::empty());
    }
}

/// Every letter of a normalized text belongs to the reduced alphabet.
pub proof fn lemma_normalize_letters(s: Seq<char>)
    ensures
        forall|i: int| 0 <= i < normalize(s).len() ==> is_reduced_letter(#[trigger] normalize(s)[i]),
    decreases s.len(),
{
    lemma_normalize_step(s);
    if s.len() > 0 {
        lemma_normalize_letters(s.drop_last());
        let n = normalize(s.drop_last());
        assert forall|i: int| 0 <= i < normalize(s).len() implies is_reduced_letter(
            #[trigger] normalize(s)[i],
        ) by {
            if i < n.len() {
                assert(normalize(s)[i] == n[i]);
            }
        }
    }
}

/// Normalization splits over concatenation.
pub proof fn lemma_normalize_concat(a: Seq<char>, b: Seq<char>)
    ensures
        normalize(a + b) == normalize(a) + normalize(b),
    decreases b.len(),
{
    if b.len() == 0 {
        lemma_normalize_step(b);
        assert(a + b =~= a);
        assert(normalize(b) =~= Seq::<char>::empty());
        assert(normalize(a) + normalize(b) =~= normalize(a));
    } else {
        lemma_normalize_concat(a, b.drop_last());
        assert((a + b).drop_last() =~= a + b.drop_last());
        lemma_normalize_step(a + b);
        lemma_normalize_step(b);
        assert(normalize(a + b) =~= normalize(a) + normalize(b));
    }
}

/// Normalizing twice gives what normalizing once gives.
pub proof fn lemma_normalize_idempotent(s: Seq<char>)
    ensures
        normalize(normalize(s)) == normalize(s),
    decreases s.len(),
{
    if s.len() > 0 {
        let rest = s.drop_last();
        lemma_normalize_idempotent(rest);
        let c = s.last();
        lemma_normalize_step(s);
        if 'A' <= c <= 'Z' {
            lemma_normalize_concat(normalize(rest), seq![merge_j(c)]);
            assert(normalize(s) == normalize(rest).push(merge_j(c)));
            assert(normalize(rest).push(merge_j(c)) =~= normalize(rest) + seq![merge_j(c)]);
            assert(seq![merge_j(c)].drop_last() =~= Seq::<char>::empty());
            lemma_normalize_step(seq![merge_j(c)]);
            lemma_normalize_step(Seq::<char>::empty());
            assert(normalize(seq![merge_j(c)]) =~= seq![merge_j(c)]);
        } else {
            assert(normalize(s) == normalize(rest));
        }
    }
}

/// Characters outside `A`..`Z`, a space among them, leave no trace in the normalized text.
pub proof fn lemma_normalize_skips(a: Seq<char>, c: char, b: Seq<char>)
    requires
        !('A' <= c <= 'Z'),
    ensures
        normalize(a + seq![c] + b) == normalize(a + b),
{
    lemma_normalize_concat(a + seq![c], b);
    lemma_normalize_concat(a, seq![c]);
    lemma_normalize_concat(a, b);
    assert(seq![c].drop_last() =~= Seq::<char>::empty());
    lemma_normalize_step(seq![c]);
    lemma_normalize_step(Seq::<char>::empty());
    assert(normalize(seq![c]) =~= Seq::<char>::empty());
    assert(normalize(a) + normalize(seq![c]) =~= normalize(a));
}

} // verus!
