//! Laws of the resolver, stated and proved over the same spec functions
//! that `get_codepage` is specified with.

use vstd::prelude::*;

use crate::cp_table_type::{CodePage, CpMap, TableNode};
use crate::text::{has_variant, lower_char, lower_seq, split_spec};
use crate::{cand_seps, candidate_result, comp_seps, descend, get_codepage_spec, resolve_spec};

verus! {

/// The component separators are exactly `-` and `_`.
pub proof fn lemma_comp_seps_contains(c: char)
    ensures
        comp_seps().contains(c) <==> (c == '-' || c == '_'),
{
    if c == '-' {
        assert(comp_seps()[0] == c);
    }
    if c == '_' {
        assert(comp_seps()[1] == c);
    }
    if comp_seps().contains(c) {
        let i = choose|i: int| 0 <= i < comp_seps().len() && comp_seps()[i] == c;
    }
}

/// The candidate separator is exactly `,`.
pub proof fn lemma_cand_seps_contains(c: char)
    ensures
        cand_seps().contains(c) <==> c == ',',
{
    if c == ',' {
        assert(cand_seps()[0] == c);
    }
    if cand_seps().contains(c) {
        let i = choose|i: int| 0 <= i < cand_seps().len() && cand_seps()[i] == c;
    }
}

/// Mapping a character function that neither makes nor unmakes separators
/// commutes with splitting: the pieces are the mapped pieces.
pub proof fn lemma_split_map_pieces(s: Seq<char>, seps: Seq<char>, f: spec_fn(char) -> char)
    requires
        forall|c: char| #[trigger] seps.contains(f(c)) <==> seps.contains(c),
    ensures
        split_spec(s.map_values(f), seps) == split_spec(s, seps).map_values(
            |p: Seq<char>| p.map_values(f),
        ),
    decreases s.len(),
{
    let g = |p: Seq<char>| p.map_values(f);
    if s.len() == 0 {
        assert(s.map_values(f) =~= Seq::<char>::empty());
        assert(split_spec(s.map_values(f), seps) =~~= split_spec(s, seps).map_values(g));
    } else {
        let sm = s.map_values(f);
        assert(sm[0] == f(s[0]));
        assert(sm.drop_first() =~= s.drop_first().map_values(f));
        lemma_split_map_pieces(s.drop_first(), seps, f);
        crate::text::lemma_split_spec_len(s.drop_first(), seps);
        let r = split_spec(s.drop_first(), seps);
        if seps.contains(s[0]) {
            assert(split_spec(sm, seps) =~~= split_spec(s, seps).map_values(g));
        } else {
            assert(r.map_values(g)[0] == g(r[0]));
            assert(r.map_values(g).drop_first() =~= r.drop_first().map_values(g));
            assert(seq![sm[0]] + g(r[0]) =~= g(seq![s[0]] + r[0]));
            assert(split_spec(sm, seps) =~~= split_spec(s, seps).map_values(g));
        }
    }
}

/// Mapping a character function that sends separators to separators and
/// leaves every other character alone does not change a split at all.
pub proof fn lemma_split_map_id(s: Seq<char>, seps: Seq<char>, f: spec_fn(char) -> char)
    requires
        forall|c: char| seps.contains(c) ==> #[trigger] seps.contains(f(c)),
        forall|c: char| !seps.contains(c) ==> #[trigger] f(c) == c,
    ensures
        split_spec(s.map_values(f), seps) == split_spec(s, seps),
    decreases s.len(),
{
    if s.len() == 0 {
        assert(s.map_values(f) =~= Seq::<char>::empty());
    } else {
        let sm = s.map_values(f);
        assert(sm[0] == f(s[0]));
        assert(sm.drop_first() =~= s.drop_first().map_values(f));
        lemma_split_map_id(s.drop_first(), seps, f);
        if seps.contains(s[0]) {
            assert(split_spec(sm, seps) =~~= split_spec(s, seps));
        } else {
            assert(sm[0] == s[0]);
            assert(split_spec(sm, seps) =~~= split_spec(s, seps));
        }
    }
}

/// Mapping a character function that neither makes nor unmakes `=` signs
/// leaves the variant-assignment test unchanged.
pub proof fn lemma_has_variant_map(s: Seq<char>, f: spec_fn(char) -> char)
    requires
        forall|c: char| (#[trigger] f(c) == '=') <==> (c == '='),
    ensures
        has_variant(s.map_values(f)) == has_variant(s),
{
    let sm = s.map_values(f);
    if has_variant(s) {
        let i = choose|i: int| 1 <= i < s.len() - 1 && s[i] == '=';
        assert(sm[i] == f(s[i]));
        assert(has_variant(sm));
    }
    if has_variant(sm) {
        let i = choose|i: int| 1 <= i < sm.len() - 1 && sm[i] == '=';
        assert(sm[i] == f(s[i]));
        assert(s[i] == '=');
        assert(has_variant(s));
    }
}

/// Lowercasing a sequence twice is the same as lowercasing it once.
pub proof fn lemma_lower_seq_idempotent(s: Seq<char>)
    ensures
        lower_seq(lower_seq(s)) == lower_seq(s),
{
    assert(lower_seq(lower_seq(s)) =~= lower_seq(s));
}

/// Descending on lowercased components reaches the same pair as
/// descending on the components themselves: every component is lowercased
/// before lookup anyway.
pub proof fn lemma_descend_lower(m: CpMap, comps: Seq<Seq<char>>)
    ensures
        descend(m, comps.map_values(|p: Seq<char>| lower_seq(p))) == descend(m, comps),
    decreases comps.len(),
{
    let g = |p: Seq<char>| lower_seq(p);
    if comps.len() > 0 {
        let cm = comps.map_values(g);
        assert(cm[0] == lower_seq(comps[0]));
        lemma_lower_seq_idempotent(comps[0]);
        assert(cm.drop_first() =~= comps.drop_first().map_values(g));
        match m.spec_get(lower_seq(comps[0])) {
            Some(node) => match node {
                TableNode::WithCP(cp, Some(next)) => {
                    lemma_descend_lower(next, comps.drop_first());
                },
                _ => {},
            },
            None => {},
        }
    }
}

/// One candidate resolves the same whether or not it is lowercased first.
pub proof fn lemma_candidate_result_lower(t: CpMap, cand: Seq<char>)
    ensures
        candidate_result(t, lower_seq(cand)) == candidate_result(t, cand),
{
    let f = |c: char| lower_char(c);
    assert(lower_seq(cand) =~= cand.map_values(f));
    assert forall|c: char| (#[trigger] f(c) == '=') <==> (c == '=') by {}
    lemma_has_variant_map(cand, f);
    assert(has_variant(lower_seq(cand)) == has_variant(cand));
    if !has_variant(cand) {
        assert forall|c: char| #[trigger]
            comp_seps().contains(f(c)) <==> comp_seps().contains(c) by {
            lemma_comp_seps_contains(c);
            lemma_comp_seps_contains(f(c));
        }
        lemma_split_map_pieces(cand, comp_seps(), f);
        let g = |p: Seq<char>| p.map_values(f);
        let gl = |p: Seq<char>| lower_seq(p);
        assert(split_spec(cand, comp_seps()).map_values(g) =~~= split_spec(
            cand,
            comp_seps(),
        ).map_values(gl));
        lemma_descend_lower(t, split_spec(cand, comp_seps()));
    }
}

/// A candidate-wise congruence: when a rewriting of single candidates
/// never changes what a candidate contributes, it never changes what a
/// candidate list resolves to.
pub proof fn lemma_resolve_map(t: CpMap, cands: Seq<Seq<char>>, g: spec_fn(Seq<char>) -> Seq<char>)
    requires
        forall|cand: Seq<char>| #[trigger] candidate_result(t, g(cand)) == candidate_result(
            t,
            cand,
        ),
    ensures
        resolve_spec(t, cands.map_values(g)) == resolve_spec(t, cands),
    decreases cands.len(),
{
    if cands.len() > 0 {
        assert(cands.map_values(g)[0] == g(cands[0]));
        assert(cands.map_values(g).drop_first() =~= cands.drop_first().map_values(g));
        lemma_resolve_map(t, cands.drop_first(), g);
    }
}

/// Case-insensitivity: a locale name resolves to the same pair as its
/// lowercased form, whatever the table.
pub proof fn lemma_case_insensitive(t: CpMap, s: Seq<char>)
    ensures
        get_codepage_spec(t, lower_seq(s)) == get_codepage_spec(t, s),
{
    let f = |c: char| lower_char(c);
    assert(lower_seq(s) =~= s.map_values(f));
    assert forall|c: char| #[trigger] cand_seps().contains(f(c)) <==> cand_seps().contains(c) by {
        lemma_cand_seps_contains(c);
        lemma_cand_seps_contains(f(c));
    }
    lemma_split_map_pieces(s, cand_seps(), f);
    let g = |p: Seq<char>| p.map_values(f);
    let gl = |p: Seq<char>| lower_seq(p);
    assert(split_spec(s, cand_seps()).map_values(g) =~~= split_spec(s, cand_seps()).map_values(gl));
    assert forall|cand: Seq<char>| #[trigger]
        candidate_result(t, gl(cand)) == candidate_result(t, cand) by {
        lemma_candidate_result_lower(t, cand);
    }
    lemma_resolve_map(t, split_spec(s, cand_seps()), gl);
}

/// Rewrites every `-` into `_`.
pub open spec fn underscore_char(c: char) -> char {
    if c == '-' {
        '_'
    } else {
        c
    }
}

/// Rewrites every `-` of a locale name into `_`.
pub open spec fn dash_to_underscore(s: Seq<char>) -> Seq<char> {
    s.map_values(|c: char| underscore_char(c))
}

/// One candidate resolves the same when its dashes become underscores.
pub proof fn lemma_candidate_result_underscore(t: CpMap, cand: Seq<char>)
    ensures
        candidate_result(t, dash_to_underscore(cand)) == candidate_result(t, cand),
{
    let f = |c: char| underscore_char(c);
    assert(dash_to_underscore(cand) =~= cand.map_values(f));
    assert forall|c: char| (#[trigger] f(c) == '=') <==> (c == '=') by {}
    lemma_has_variant_map(cand, f);
    if !has_variant(cand) {
        assert forall|c: char| comp_seps().contains(c) implies #[trigger] comp_seps().contains(
            f(c),
        ) by {
            lemma_comp_seps_contains(c);
            lemma_comp_seps_contains(f(c));
        }
        assert forall|c: char| !comp_seps().contains(c) implies #[trigger] f(c) == c by {
            lemma_comp_seps_contains(c);
        }
        lemma_split_map_id(cand, comp_seps(), f);
    }
}

/// Separator equivalence: a locale name resolves to the same pair when
/// every `-` in it is written `_` instead, whatever the table.
pub proof fn lemma_separator_equiv(t: CpMap, s: Seq<char>)
    ensures
        get_codepage_spec(t, dash_to_underscore(s)) == get_codepage_spec(t, s),
{
    let f = |c: char| underscore_char(c);
    assert(dash_to_underscore(s) =~= s.map_values(f));
    assert forall|c: char| #[trigger] cand_seps().contains(f(c)) <==> cand_seps().contains(c) by {
        lemma_cand_seps_contains(c);
        lemma_cand_seps_contains(f(c));
    }
    lemma_split_map_pieces(s, cand_seps(), f);
    let g = |p: Seq<char>| p.map_values(f);
    let gd = |p: Seq<char>| dash_to_underscore(p);
    assert(split_spec(s, cand_seps()).map_values(g) =~~= split_spec(s, cand_seps()).map_values(gd));
    assert forall|cand: Seq<char>| #[trigger]
        candidate_result(t, gd(cand)) == candidate_result(t, cand) by {
        lemma_candidate_result_underscore(t, cand);
    }
    lemma_resolve_map(t, split_spec(s, cand_seps()), gd);
}

/// Specificity: when the table holds a language node with a pair and that
/// node continues to a region node with a pair, the two-component descent
/// reaches the region's pair, the one-component descent reaches the
/// language's pair, and the two descents differ whenever those pairs do.
pub proof fn lemma_specificity(
    t: CpMap,
    lang: Seq<char>,
    region: Seq<char>,
    cp_lang: CodePage,
    sub: CpMap,
    cp_region: CodePage,
    cont: Option<CpMap>,
)
    requires
        t.spec_get(lower_seq(lang)) == Some(TableNode::WithCP(cp_lang, Some(sub))),
        sub.spec_get(lower_seq(region)) == Some(TableNode::WithCP(cp_region, cont)),
    ensures
        descend(t, seq![lang, region]) == Some(cp_region),
        descend(t, seq![lang]) == Some(cp_lang),
        cp_lang != cp_region ==> descend(t, seq![lang, region]) != descend(t, seq![lang]),
{
    assert(seq![lang, region].drop_first() =~= seq![region]);
    assert(seq![region].drop_first() =~= Seq::<Seq<char>>::empty());
    assert(seq![lang].drop_first() =~= Seq::<Seq<char>>::empty());
    assert(descend(sub, Seq::<Seq<char>>::empty()) is None);
    match cont {
        Some(deeper) => {
            assert(descend(deeper, Seq::<Seq<char>>::empty()) is None);
        },
        None => {},
    }
    assert(descend(sub, seq![region]) == Some(cp_region));
    assert(descend(t, seq![lang, region]) == Some(cp_region));
}

/// Specificity for candidate strings: under the same table as
/// `lemma_specificity`, the candidate `lang-region` yields the region's
/// pair while the candidate `lang` alone yields the language's, so the
/// more specific candidate wins whenever the two pairs differ.
pub proof fn lemma_specificity_candidates(
    t: CpMap,
    lang: Seq<char>,
    region: Seq<char>,
    cp_lang: CodePage,
    sub: CpMap,
    cp_region: CodePage,
    cont: Option<CpMap>,
)
    requires
        t.spec_get(lower_seq(lang)) == Some(TableNode::WithCP(cp_lang, Some(sub))),
        sub.spec_get(lower_seq(region)) == Some(TableNode::WithCP(cp_region, cont)),
        forall|i: int|
            0 <= i < lang.len() ==> !comp_seps().contains(#[trigger] lang[i]) && lang[i] != '=',
        forall|i: int|
            0 <= i < region.len() ==> !comp_seps().contains(#[trigger] region[i]) && region[i]
                != '=',
    ensures
        candidate_result(t, lang + seq!['-'] + region) == Some(cp_region),
        candidate_result(t, lang) == Some(cp_lang),
        cp_lang != cp_region ==> candidate_result(t, lang + seq!['-'] + region)
            != candidate_result(t, lang),
{
    let joined = lang + seq!['-'] + region;
    assert(comp_seps()[0] == '-');
    assert forall|i: int| 0 <= i < joined.len() implies #[trigger] joined[i] != '=' by {
        if i < lang.len() {
            assert(joined[i] == lang[i]);
        } else if i == lang.len() {
            assert(joined[i] == '-');
        } else {
            assert(joined[i] == region[i - lang.len() - 1]);
        }
    }
    assert(!has_variant(joined));
    assert(!has_variant(lang));
    lemma_split_concat(lang, '-', region, comp_seps());
    lemma_split_no_sep(region, comp_seps());
    assert(seq![lang] + seq![region] =~= seq![lang, region]);
    lemma_split_no_sep(lang, comp_seps());
    lemma_specificity(t, lang, region, cp_lang, sub, cp_region, cont);
}

/// A sequence without separators splits into itself as the one piece.
pub proof fn lemma_split_no_sep(s: Seq<char>, seps: Seq<char>)
    requires
        forall|i: int| 0 <= i < s.len() ==> !seps.contains(#[trigger] s[i]),
    ensures
        split_spec(s, seps) == seq![s],
    decreases s.len(),
{
    if s.len() == 0 {
        assert(s =~= Seq::<char>::empty());
        assert(split_spec(s, seps) =~~= seq![s]);
    } else {
        assert forall|i: int| 0 <= i < s.drop_first().len() implies !seps.contains(
            #[trigger] s.drop_first()[i],
        ) by {
            assert(s.drop_first()[i] == s[i + 1]);
        }
        lemma_split_no_sep(s.drop_first(), seps);
        assert(seq![s[0]] + s.drop_first() =~= s);
        assert(split_spec(s, seps) =~~= seq![s]);
    }
}

/// Splitting a separator-free prefix, a separator, and a remainder yields
/// the prefix as the first piece and the split of the remainder after it.
pub proof fn lemma_split_concat(a: Seq<char>, c: char, b: Seq<char>, seps: Seq<char>)
    requires
        seps.contains(c),
        forall|i: int| 0 <= i < a.len() ==> !seps.contains(#[trigger] a[i]),
    ensures
        split_spec(a + seq![c] + b, seps) == seq![a] + split_spec(b, seps),
    decreases a.len(),
{
    let s = a + seq![c] + b;
    if a.len() == 0 {
        assert(s[0] == c);
        assert(s.drop_first() =~= b);
        assert(split_spec(s, seps) =~~= seq![a] + split_spec(b, seps));
    } else {
        assert(s[0] == a[0]);
        assert(s.drop_first() =~= a.drop_first() + seq![c] + b);
        assert forall|i: int| 0 <= i < a.drop_first().len() implies !seps.contains(
            #[trigger] a.drop_first()[i],
        ) by {
            assert(a.drop_first()[i] == a[i + 1]);
        }
        lemma_split_concat(a.drop_first(), c, b, seps);
        crate::text::lemma_split_spec_len(b, seps);
        assert(seq![s[0]] + a.drop_first() =~= a);
        assert(split_spec(s, seps) =~~= seq![a] + split_spec(b, seps));
    }
}

/// Candidate fallback: a leading candidate that contributes nothing is
/// skipped, and the rest of the list alone decides the result.
pub proof fn lemma_candidate_fallback(t: CpMap, c1: Seq<char>, rest: Seq<char>)
    requires
        !c1.contains(','),
        candidate_result(t, c1) is None,
    ensures
        get_codepage_spec(t, c1 + seq![','] + rest) == get_codepage_spec(t, rest),
{
    assert forall|i: int| 0 <= i < c1.len() implies !cand_seps().contains(#[trigger] c1[i]) by {
        lemma_cand_seps_contains(c1[i]);
    }
    assert(cand_seps()[0] == ',');
    lemma_split_concat(c1, ',', rest, cand_seps());
    let cands = seq![c1] + split_spec(rest, cand_seps());
    assert(cands[0] == c1);
    assert(cands.drop_first() =~= split_spec(rest, cand_seps()));
}

/// First match wins: once the leading candidate contributes a pair, that
/// pair is the result, whatever follows after the comma.
pub proof fn lemma_first_match_wins(t: CpMap, c1: Seq<char>, rest: Seq<char>)
    requires
        !c1.contains(','),
        candidate_result(t, c1) is Some,
    ensures
        get_codepage_spec(t, c1 + seq![','] + rest) == candidate_result(t, c1),
        get_codepage_spec(t, c1) == candidate_result(t, c1),
{
    assert forall|i: int| 0 <= i < c1.len() implies !cand_seps().contains(#[trigger] c1[i]) by {
        lemma_cand_seps_contains(c1[i]);
    }
    assert(cand_seps()[0] == ',');
    lemma_split_concat(c1, ',', rest, cand_seps());
    let cands = seq![c1] + split_spec(rest, cand_seps());
    assert(cands[0] == c1);
    lemma_split_no_sep(c1, cand_seps());
    assert(seq![c1][0] == c1);
}

/// A candidate whose first component the table does not know contributes
/// nothing, whatever comes after that component.
pub proof fn lemma_unknown_language(t: CpMap, cand: Seq<char>)
    requires
        t.spec_get(lower_seq(split_spec(cand, comp_seps())[0])) is None,
    ensures
        candidate_result(t, cand) is None,
{
    crate::text::lemma_split_spec_len(cand, comp_seps());
}

/// A candidate carrying a variant assignment contributes nothing, and as
/// the only candidate it makes the whole input resolve to no match.
pub proof fn lemma_variant_skipped(t: CpMap, cand: Seq<char>)
    requires
        has_variant(cand),
    ensures
        candidate_result(t, cand) is None,
        !cand.contains(',') ==> get_codepage_spec(t, cand) is None,
{
    if !cand.contains(',') {
        assert forall|i: int| 0 <= i < cand.len() implies !cand_seps().contains(
            #[trigger] cand[i],
        ) by {
            lemma_cand_seps_contains(cand[i]);
        }
        lemma_split_no_sep(cand, cand_seps());
        assert(seq![cand][0] == cand);
        assert(seq![cand].drop_first() =~= Seq::<Seq<char>>::empty());
        assert(resolve_spec(t, Seq::<Seq<char>>::empty()) is None);
    }
}

/// A candidate list in which no candidate contributes anything resolves
/// to no match, never to a fault.
pub proof fn lemma_all_unmatched(t: CpMap, cands: Seq<Seq<char>>)
    requires
        forall|i: int| 0 <= i < cands.len() ==> candidate_result(t, #[trigger] cands[i]) is None,
    ensures
        resolve_spec(t, cands) is None,
    decreases cands.len(),
{
    if cands.len() > 0 {
        assert forall|i: int|
            0 <= i < cands.drop_first().len() implies candidate_result(
            t,
            #[trigger] cands.drop_first()[i],
        ) is None by {
            assert(cands.drop_first()[i] == cands[i + 1]);
        }
        lemma_all_unmatched(t, cands.drop_first());
    }
}

/// The empty input resolves to no match in any table whose keys are
/// nonempty components.
pub proof fn lemma_empty_input(t: CpMap)
    requires
        t.spec_get(Seq::<char>::empty()) is None,
    ensures
        get_codepage_spec(t, Seq::<char>::empty()) is None,
{
    let e = Seq::<char>::empty();
    assert(split_spec(e, cand_seps()) == seq![e]);
    assert(seq![e][0] == e);
    assert(seq![e].drop_first() =~= Seq::<Seq<char>>::empty());
    assert(split_spec(e, comp_seps()) == seq![e]);
    assert(lower_seq(e) =~= e);
    crate::text::lemma_split_spec_len(e, comp_seps());
    assert(!has_variant(e));
    assert(descend(t, seq![e]) is None);
    assert(candidate_result(t, e) is None);
    assert(resolve_spec(t, Seq::<Seq<char>>::empty()) is None);
}

} // verus!
