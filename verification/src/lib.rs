//! Maps a locale name such as "en-US" or "ja_JP" to the pair of legacy
//! ANSI/OEM code-page identifiers recorded for it in a caller-supplied
//! locale table.

pub mod cp_table_type;
pub mod laws;
pub mod text;

use vstd::prelude::*;

use crate::cp_table_type::{CodePage, CpMap, TableNode};
use crate::text::{has_variant, has_variant_exec, lower_seq, lower_vec, split_by, split_spec, to_char_vec};

verus! {

/// The separators that join the components of one locale candidate.
pub open spec fn comp_seps() -> Seq<char> {
    seq!['-', '_']
}

/// The separator that joins the candidates of a locale list.
pub open spec fn cand_seps() -> Seq<char> {
    seq![',']
}

/// The code-page pair that a component-wise descent from `m` reaches: the
/// pair carried by the deepest node on the matched prefix of `comps` that
/// carries one.  Each component is lowercased before it is looked up.  A
/// node without a pair of its own ends the descent and contributes
/// nothing, and so does the first component that the current map does not
/// hold.
pub open spec fn descend(m: CpMap, comps: Seq<Seq<char>>) -> Option<CodePage>
    decreases comps.len(),
{
    if comps.len() == 0 {
        None
    } else {
        match m.spec_get(lower_seq(comps[0])) {
            Some(node) => match node {
                TableNode::WithCP(cp, Some(next)) => match descend(next, comps.drop_first()) {
                    Some(deeper) => Some(deeper),
                    None => Some(cp),
                },
                TableNode::WithCP(cp, None) => Some(cp),
                TableNode::WithoutCP(_) => None,
            },
            None => None,
        }
    }
}

/// What one candidate contributes: nothing when it carries a `key=value`
/// variant assignment, else the result of descending along its components.
pub open spec fn candidate_result(root: CpMap, cand: Seq<char>) -> Option<CodePage> {
    if has_variant(cand) {
        None
    } else {
        descend(root, split_spec(cand, comp_seps()))
    }
}

/// The result for a candidate list: the contribution of the first
/// candidate that has one; later candidates are never consulted.
pub open spec fn resolve_spec(root: CpMap, cands: Seq<Seq<char>>) -> Option<CodePage>
    decreases cands.len(),
{
    if cands.len() == 0 {
        None
    } else {
        match candidate_result(root, cands[0]) {
            Some(cp) => Some(cp),
            None => resolve_spec(root, cands.drop_first()),
        }
    }
}

/// The code-page pair for a whole locale-name string: the input is split
/// into comma-separated candidates and the first candidate with a match
/// decides.
pub open spec fn get_codepage_spec(root: CpMap, s: Seq<char>) -> Option<CodePage> {
    resolve_spec(root, split_spec(s, cand_seps()))
}

/// Descends from `m` along the components of `comps` from index `i` on,
/// lowercasing each component before looking it up.
fn descend_exec(m: &CpMap, comps: &Vec<Vec<char>>, i: usize) -> (r: Option<CodePage>)
    requires
        i <= comps@.len(),
    ensures
        r == descend(*m, comps@.map_values(|p: Vec<char>| p@).skip(i as int)),
    decreases comps@.len() - i,
{
    let ghost compsv = comps@.map_values(|p: Vec<char>| p@);
    if i == comps.len() {
        proof {
            assert(compsv.skip(i as int) =~= Seq::<Seq<char>>::empty());
        }
        return None;
    }
    proof {
        assert(compsv.skip(i as int)[0] == comps@[i as int]@);
        assert(compsv.skip(i as int).drop_first() =~= compsv.skip(i as int + 1));
    }
    let key = lower_vec(&comps[i]);
    match m.get(&key) {
        None => None,
        Some(node) => match node {
            TableNode::WithCP(cp, Some(next)) => match descend_exec(next, comps, i + 1) {
                Some(deeper) => Some(deeper),
                None => Some(*cp),
            },
            TableNode::WithCP(cp, None) => Some(*cp),
            TableNode::WithoutCP(_) => None,
        },
    }
}

/// Suggests the ANSI/OEM code-page pair recorded in `table` for the given
/// locale name.
///
/// The name may hold several comma-separated candidates, each a list of
/// components joined by `-` or `_` (such as `en-US`, `en_us` or plain
/// `en`); matching is case-insensitive, the first candidate with any
/// match decides, and within one candidate the deepest match wins.  A
/// candidate carrying a `key=value` variant assignment is skipped, and an
/// input that matches nothing yields `None`.
pub fn get_codepage(table: &CpMap, locale_name: &str) -> (r: Option<CodePage>)
    ensures
        r == get_codepage_spec(*table, locale_name@),
{
    let chars = to_char_vec(locale_name);
    let mut commas: Vec<char> = Vec::new();
    commas.push(',');
    proof {
        assert(commas@ =~= cand_seps());
    }
    let candidates = split_by(&chars, &commas);
    let mut seps: Vec<char> = Vec::new();
    seps.push('-');
    seps.push('_');
    proof {
        assert(seps@ =~= comp_seps());
    }
    let ghost candsv = candidates@.map_values(|p: Vec<char>| p@);
    let mut i: usize = 0;
    proof {
        assert(candsv.skip(0) =~= candsv);
    }
    while i < candidates.len()
        invariant
            i <= candsv.len(),
            candsv == candidates@.map_values(|p: Vec<char>| p@),
            candsv == split_spec(locale_name@, cand_seps()),
            seps@ == comp_seps(),
            resolve_spec(*table, candsv) == resolve_spec(*table, candsv.skip(i as int)),
        decreases candsv.len() - i,
    {
        proof {
            assert(candsv.skip(i as int)[0] == candidates@[i as int]@);
            assert(candsv.skip(i as int).drop_first() =~= candsv.skip(i as int + 1));
        }
        let cand = &candidates[i];
        if !has_variant_exec(cand) {
            let comps = split_by(cand, &seps);
            proof {
                assert(comps@.map_values(|p: Vec<char>| p@).skip(0) =~= comps@.map_values(
                    |p: Vec<char>| p@,
                ));
            }
            let r = descend_exec(table, &comps, 0);
            if r.is_some() {
                return r;
            }
        }
        i += 1;
    }
    proof {
        assert(candsv.skip(candsv.len() as int) =~= Seq::<Seq<char>>::empty());
    }
    None
}

} // verus!
