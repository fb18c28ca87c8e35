//! The data model of the locale table: code-page pairs, table nodes, and
//! the component-keyed map that links a node to its children.

use vstd::prelude::*;

verus! {

/// A pair of legacy code-page identifiers: the "ANSI" code page used by
/// graphical programs and the "OEM" code page used by console programs.
#[derive(PartialEq, Eq, Debug, Clone, Copy)]
pub struct CodePage {
    pub ansi: u16,
    pub oem: u16,
}

impl CodePage {
    /// Builds a code-page pair from its two identifiers.
    pub fn new(ansi: u16, oem: u16) -> (r: Self)
        ensures
            r.ansi == ansi,
            r.oem == oem,
    {
        CodePage { ansi, oem }
    }
}

/// One node of the locale table.  A node either carries a code-page pair
/// of its own, possibly with deeper entries for more specific locales, or
/// is purely structural: it carries children but no pair at this level.
pub enum TableNode {
    WithCP(CodePage, Option<CpMap>),
    WithoutCP(CpMap),
}

/// A mapping from one lowercase locale component to the node reached
/// through it.  Keys are unique; nothing else about their order matters,
/// since lookup is by key.
pub struct CpMap {
    entries: Vec<(Vec<char>, TableNode)>,
}

/// The node stored under `key` in `es`, if any: the first entry whose key
/// equals `key`.
spec fn entries_get(es: Seq<(Vec<char>, TableNode)>, key: Seq<char>) -> Option<
    TableNode,
>
    decreases es.len(),
{
    if es.len() == 0 {
        None
    } else if es[0].0@ == key {
        Some(es[0].1)
    } else {
        entries_get(es.drop_first(), key)
    }
}

/// When no entry of `es` holds `key`, the lookup yields nothing, and the
/// other way round.
proof fn lemma_entries_get_none(es: Seq<(Vec<char>, TableNode)>, key: Seq<char>)
    ensures
        entries_get(es, key) is None <==> forall|i: int| 0 <= i < es.len() ==> es[i].0@ != key,
    decreases es.len(),
{
    if es.len() > 0 {
        lemma_entries_get_none(es.drop_first(), key);
        if entries_get(es, key) is None {
            assert forall|i: int| 0 <= i < es.len() implies es[i].0@ != key by {
                if i > 0 {
                    assert(es.drop_first()[i - 1] == es[i]);
                }
            }
        } else {
            if es[0].0@ != key {
                let j = choose|j: int|
                    0 <= j < es.drop_first().len() && es.drop_first()[j].0@ == key;
                assert(es[j + 1].0@ == key);
            }
        }
    }
}

/// Appending an entry changes only the lookup of its key, and only when
/// that key was absent.
proof fn lemma_entries_get_push(
    es: Seq<(Vec<char>, TableNode)>,
    e: (Vec<char>, TableNode),
    key: Seq<char>,
)
    ensures
        entries_get(es.push(e), key) == (if entries_get(es, key) is Some {
            entries_get(es, key)
        } else if e.0@ == key {
            Some(e.1)
        } else {
            None::<TableNode>
        }),
    decreases es.len(),
{
    if es.len() == 0 {
        assert(es.push(e)[0] == e);
        assert(es.push(e).drop_first() =~= Seq::<(Vec<char>, TableNode)>::empty());
        assert(entries_get(Seq::<(Vec<char>, TableNode)>::empty(), key) is None);
        assert(entries_get(es, key) is None);
    } else {
        assert(es.push(e)[0] == es[0]);
        assert(es.push(e).drop_first() =~= es.drop_first().push(e));
        lemma_entries_get_push(es.drop_first(), e, key);
    }
}

/// Compares two components character by character.
fn chars_eq(a: &Vec<char>, b: &Vec<char>) -> (r: bool)
    ensures
        r == (a@ == b@),
{
    if a.len() != b.len() {
        return false;
    }
    let mut i: usize = 0;
    while i < a.len()
        invariant
            a@.len() == b@.len(),
            i <= a@.len(),
            forall|j: int| 0 <= j < i ==> a@[j] == b@[j],
        decreases a@.len() - i,
    {
        if a[i] != b[i] {
            return false;
        }
        i += 1;
    }
    proof {
        assert(a@ =~= b@);
    }
    true
}

impl CpMap {
    /// The node stored under `key`, if any.
    pub closed spec fn spec_get(&self, key: Seq<char>) -> Option<TableNode> {
        entries_get(self.entries@, key)
    }

    /// Well-formed maps hold each key at most once.
    pub closed spec fn wf(&self) -> bool {
        forall|i: int, j: int|
            0 <= i < j < self.entries@.len() ==> self.entries@[i].0@ != self.entries@[j].0@
    }

    /// Builds an empty map.
    pub fn new() -> (r: CpMap)
        ensures
            r.wf(),
            forall|key: Seq<char>| r.spec_get(key) is None,
    {
        let r = CpMap { entries: Vec::new() };
        proof {
            assert forall|key: Seq<char>| r.spec_get(key) is None by {
                assert(r.entries@.len() == 0);
            }
        }
        r
    }

    /// Adds an entry under a key that the map does not hold yet; every
    /// other key still reaches what it reached before.
    pub fn insert(&mut self, key: &str, node: TableNode)
        requires
            old(self).wf(),
            old(self).spec_get(key@) is None,
        ensures
            final(self).wf(),
            final(self).spec_get(key@) == Some(node),
            forall|k: Seq<char>|
                k != key@ ==> final(self).spec_get(k) == old(self).spec_get(k),
    {
        let kv = crate::text::to_char_vec(key);
        let ghost old_entries = self.entries@;
        self.entries.push((kv, node));
        proof {
            let e = (kv, node);
            assert forall|k: Seq<char>| #![auto]
                self.spec_get(k) == (if entries_get(old_entries, k) is Some {
                    entries_get(old_entries, k)
                } else if k == key@ {
                    Some(node)
                } else {
                    None::<TableNode>
                }) by {
                lemma_entries_get_push(old_entries, e, k);
            }
            lemma_entries_get_none(old_entries, key@);
            assert forall|i: int, j: int|
                0 <= i < j < self.entries@.len() implies self.entries@[i].0@
                != self.entries@[j].0@ by {
                if j < old_entries.len() {
                } else {
                    assert(self.entries@[j] == e);
                    assert(self.entries@[i] == old_entries[i]);
                }
            }
        }
    }

    /// Looks a component up, yielding a reference to the node under it.
    pub fn get<'a>(&'a self, key: &Vec<char>) -> (r: Option<&'a TableNode>)
        ensures
            match r {
                Some(node) => self.spec_get(key@) == Some(*node),
                None => self.spec_get(key@) is None,
            },
    {
        let mut i: usize = 0;
        proof {
            assert(self.entries@.skip(0) =~= self.entries@);
        }
        while i < self.entries.len()
            invariant
                i <= self.entries@.len(),
                entries_get(self.entries@, key@) == entries_get(
                    self.entries@.skip(i as int),
                    key@,
                ),
            decreases self.entries@.len() - i,
        {
            proof {
                assert(self.entries@.skip(i as int)[0] == self.entries@[i as int]);
                assert(self.entries@.skip(i as int).drop_first() =~= self.entries@.skip(
                    i as int + 1,
                ));
            }
            if chars_eq(&self.entries[i].0, key) {
                return Some(&self.entries[i].1);
            }
            i += 1;
        }
        proof {
            assert(self.entries@.skip(self.entries@.len() as int) =~= Seq::<(
                Vec<char>,
                TableNode,
            )>::empty());
        }
        None
    }
}

} // verus!
