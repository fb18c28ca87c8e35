//! Character-level helpers: ASCII lowercasing, splitting a character
//! sequence at separator characters, and spotting `key=value` variant
//! assignments inside a locale candidate.

use vstd::prelude::*;

verus! {

/// ASCII lowercasing of one character: `'A'..='Z'` move down into
/// `'a'..='z'`; every other character is left alone.
pub open spec fn lower_char(c: char) -> char {
    if 'A' <= c && c <= 'Z' {
        ((c as u32) + 32) as char
    } else {
        c
    }
}

/// ASCII lowercasing of a whole character sequence.
pub open spec fn lower_seq(s: Seq<char>) -> Seq<char> {
    s.map_values(|c: char| lower_char(c))
}

fn lower_char_exec(c: char) -> (r: char)
    ensures
        r == lower_char(c),
{
    match c {
        'A' => 'a',
        'B' => 'b',
        'C' => 'c',
        'D' => 'd',
        'E' => 'e',
        'F' => 'f',
        'G' => 'g',
        'H' => 'h',
        'I' => 'i',
        'J' => 'j',
        'K' => 'k',
        'L' => 'l',
        'M' => 'm',
        'N' => 'n',
        'O' => 'o',
        'P' => 'p',
        'Q' => 'q',
        'R' => 'r',
        'S' => 's',
        'T' => 't',
        'U' => 'u',
        'V' => 'v',
        'W' => 'w',
        'X' => 'x',
        'Y' => 'y',
        'Z' => 'z',
        _ => c,
    }
}

/// Lowercases every character of a component.
pub fn lower_vec(s: &Vec<char>) -> (r: Vec<char>)
    ensures
        r@ == lower_seq(s@),
{
    let mut r: Vec<char> = Vec::new();
    let mut i: usize = 0;
    while i < s.len()
        invariant
            i <= s@.len(),
            r@ == lower_seq(s@.take(i as int)),
        decreases s@.len() - i,
    {
        let c = lower_char_exec(s[i]);
        r.push(c);
        i += 1;
        proof {
            assert(r@ =~= lower_seq(s@.take(i as int)));
        }
    }
    proof {
        assert(s@.take(s@.len() as int) =~= s@);
    }
    r
}

/// Collects the characters of a string slice into a vector.
pub fn to_char_vec(s: &str) -> (r: Vec<char>)
    ensures
        r@ == s@,
{
    let len = s.unicode_len();
    let mut r: Vec<char> = Vec::new();
    let mut i: usize = 0;
    while i < len
        invariant
            i <= len,
            len == s@.len(),
            r@ == s@.take(i as int),
        decreases len - i,
    {
        let c = s.get_char(i);
        r.push(c);
        i += 1;
        proof {
            assert(r@ =~= s@.take(i as int));
        }
    }
    proof {
        assert(s@.take(len as int) =~= s@);
    }
    r
}

/// Splits `s` at every character that occurs in `seps`, keeping empty
/// pieces, so the result always holds one piece more than `s` holds
/// separators.  The empty sequence splits into one empty piece.
pub open spec fn split_spec(s: Seq<char>, seps: Seq<char>) -> Seq<Seq<char>>
    decreases s.len(),
{
    if s.len() == 0 {
        seq![Seq::<char>::empty()]
    } else if seps.contains(s[0]) {
        seq![Seq::<char>::empty()] + split_spec(s.drop_first(), seps)
    } else {
        let rest = split_spec(s.drop_first(), seps);
        seq![seq![s[0]] + rest[0]] + rest.drop_first()
    }
}

/// A split always yields at least one piece.
pub proof fn lemma_split_spec_len(s: Seq<char>, seps: Seq<char>)
    ensures
        split_spec(s, seps).len() >= 1,
    decreases s.len(),
{
    if s.len() == 0 {
    } else if seps.contains(s[0]) {
        lemma_split_spec_len(s.drop_first(), seps);
    } else {
        lemma_split_spec_len(s.drop_first(), seps);
    }
}

/// Appending one character either starts a fresh empty piece (when the
/// character is a separator) or extends the last piece.
pub proof fn lemma_split_spec_snoc(s: Seq<char>, c: char, seps: Seq<char>)
    ensures
        seps.contains(c) ==> split_spec(s.push(c), seps) == split_spec(s, seps).push(
            Seq::<char>::empty(),
        ),
        !seps.contains(c) ==> split_spec(s.push(c), seps) == split_spec(s, seps).update(
            split_spec(s, seps).len() - 1,
            split_spec(s, seps).last().push(c),
        ),
    decreases s.len(),
{
    lemma_split_spec_len(s, seps);
    if s.len() == 0 {
        assert(s.push(c)[0] == c);
        assert(s.push(c).drop_first() =~= Seq::<char>::empty());
        assert(split_spec(Seq::<char>::empty(), seps) == seq![Seq::<char>::empty()]);
        assert(s =~= Seq::<char>::empty());
        if seps.contains(c) {
            assert(split_spec(s.push(c), seps) =~~= split_spec(s, seps).push(
                Seq::<char>::empty(),
            ));
        } else {
            assert(split_spec(s.push(c), seps) =~~= split_spec(s, seps).update(
                0,
                split_spec(s, seps).last().push(c),
            ));
        }
    } else {
        assert(s.push(c)[0] == s[0]);
        assert(s.push(c).drop_first() =~= s.drop_first().push(c));
        lemma_split_spec_snoc(s.drop_first(), c, seps);
        lemma_split_spec_len(s.drop_first(), seps);
        let r = split_spec(s.drop_first(), seps);
        if seps.contains(c) {
            if seps.contains(s[0]) {
                assert(split_spec(s.push(c), seps) =~~= split_spec(s, seps).push(
                    Seq::<char>::empty(),
                ));
            } else {
                assert(r.push(Seq::<char>::empty()).drop_first() =~= r.drop_first().push(
                    Seq::<char>::empty(),
                ));
                assert(split_spec(s.push(c), seps) =~~= split_spec(s, seps).push(
                    Seq::<char>::empty(),
                ));
            }
        } else {
            if seps.contains(s[0]) {
                assert(split_spec(s.push(c), seps) =~~= split_spec(s, seps).update(
                    split_spec(s, seps).len() - 1,
                    split_spec(s, seps).last().push(c),
                ));
            } else {
                let ru = r.update(r.len() - 1, r.last().push(c));
                if r.len() == 1 {
                    assert(ru[0] == r[0].push(c));
                    assert(split_spec(s.push(c), seps) =~~= split_spec(s, seps).update(
                        split_spec(s, seps).len() - 1,
                        split_spec(s, seps).last().push(c),
                    ));
                } else {
                    assert(ru[0] == r[0]);
                    assert(ru.drop_first() =~= r.drop_first().update(
                        r.drop_first().len() - 1,
                        r.drop_first().last().push(c),
                    ));
                    assert(split_spec(s.push(c), seps) =~~= split_spec(s, seps).update(
                        split_spec(s, seps).len() - 1,
                        split_spec(s, seps).last().push(c),
                    ));
                }
            }
        }
    }
}

fn contains_char(seps: &Vec<char>, c: char) -> (r: bool)
    ensures
        r == seps@.contains(c),
{
    let mut i: usize = 0;
    while i < seps.len()
        invariant
            i <= seps@.len(),
            forall|j: int| 0 <= j < i ==> seps@[j] != c,
        decreases seps@.len() - i,
    {
        if seps[i] == c {
            return true;
        }
        i += 1;
    }
    false
}

/// Splits the characters of `s` at every character that occurs in `seps`.
pub fn split_by(s: &Vec<char>, seps: &Vec<char>) -> (r: Vec<Vec<char>>)
    ensures
        r@.map_values(|p: Vec<char>| p@) == split_spec(s@, seps@),
{
    let mut pieces: Vec<Vec<char>> = Vec::new();
    let mut cur: Vec<char> = Vec::new();
    let mut i: usize = 0;
    proof {
        assert(pieces@.map_values(|p: Vec<char>| p@).push(cur@) =~~= split_spec(
            s@.take(0),
            seps@,
        ));
    }
    while i < s.len()
        invariant
            i <= s@.len(),
            pieces@.map_values(|p: Vec<char>| p@).push(cur@) == split_spec(
                s@.take(i as int),
                seps@,
            ),
        decreases s@.len() - i,
    {
        let c = s[i];
        proof {
            assert(s@.take(i as int).push(c) =~= s@.take(i + 1));
            lemma_split_spec_snoc(s@.take(i as int), c, seps@);
        }
        if contains_char(seps, c) {
            let ghost old_pieces = pieces@;
            let ghost old_cur = cur@;
            pieces.push(cur);
            cur = Vec::new();
            proof {
                assert(pieces@.map_values(|p: Vec<char>| p@).push(cur@) =~~= split_spec(
                    s@.take(i as int),
                    seps@,
                ).push(Seq::<char>::empty()));
            }
        } else {
            cur.push(c);
            proof {
                let prev = split_spec(s@.take(i as int), seps@);
                assert(pieces@.map_values(|p: Vec<char>| p@).push(cur@) =~~= prev.update(
                    prev.len() - 1,
                    prev.last().push(c),
                ));
            }
        }
        i += 1;
    }
    proof {
        assert(s@.take(s@.len() as int) =~= s@);
    }
    pieces.push(cur);
    proof {
        assert(pieces@.map_values(|p: Vec<char>| p@) =~~= split_spec(s@, seps@));
    }
    pieces
}

/// Holds when the candidate carries a `key=value` variant assignment:
/// an `=` with at least one character on each side.
pub open spec fn has_variant(s: Seq<char>) -> bool {
    exists|i: int| 1 <= i < s.len() - 1 && s[i] == '='
}

/// Scans a candidate for a `key=value` variant assignment.
pub fn has_variant_exec(s: &Vec<char>) -> (r: bool)
    ensures
        r == has_variant(s@),
{
    if s.len() < 3 {
        return false;
    }
    let mut i: usize = 1;
    while i < s.len() - 1
        invariant
            1 <= i <= s@.len() - 1,
            s@.len() >= 3,
            forall|j: int| 1 <= j < i ==> s@[j] != '=',
        decreases s@.len() - i,
    {
        if s[i] == '=' {
            return true;
        }
        i += 1;
    }
    false
}

} // verus!
