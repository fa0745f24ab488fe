//! The reconciler.
//!
//! [`diff`] maps the pair (existing, desired) to a plan of deletions,
//! creations and updates. Matching goes by the identity key (kind,
//! name); among several existing entries sharing one key the last seen
//! wins. An existing entry without a remote identifier is never deleted
//! and never updated. The plan's groups keep the order of the
//! collection that drives them: `existing` for deletions, `desired` for
//! creations and updates.
use vstd::prelude::*;

use crate::data::cmd_view;
use crate::data::cmds_view;
use crate::data::CmdV;
use crate::data::CommandDefinition;
use crate::data::CommandKind;
use crate::equality::command_eq;
use crate::norm::cmd_equiv;

verus! {

/// The identity key by which existing and desired entries are matched.
pub open spec fn key_of(c: CmdV) -> (CommandKind, Seq<char>) {
    (c.kind, c.name)
}

/// The last entry of `s` carrying the key `k`, if any: the one that an
/// identity index built first-to-last would retain.
pub open spec fn lookup_last(s: Seq<CmdV>, k: (CommandKind, Seq<char>)) -> Option<CmdV>
    decreases s.len(),
{
    if s.len() == 0 {
        Option::None
    } else if key_of(s.last()) == k {
        Option::Some(s.last())
    } else {
        lookup_last(s.drop_last(), k)
    }
}

/// Whether any entry of `s` carries the key `k`.
pub open spec fn has_key(s: Seq<CmdV>, k: (CommandKind, Seq<char>)) -> bool {
    lookup_last(s, k) is Some
}

/// Whether entry `i` of the existing collection is to be deleted: it is
/// the last entry under its key, it carries a remote identifier, and no
/// desired entry shares its key.
pub open spec fn deletable(e: Seq<CmdV>, i: int, d: Seq<CmdV>) -> bool {
    &&& e[i].id is Some
    &&& !has_key(d, key_of(e[i]))
    &&& forall|j: int| i < j < e.len() ==> #[trigger] key_of(e[j]) != key_of(e[i])
}

/// The identifiers deleted among the first `n` existing entries, in
/// order.
pub open spec fn del_ids(e: Seq<CmdV>, d: Seq<CmdV>, n: int) -> Seq<u64>
    decreases n,
{
    if n <= 0 {
        Seq::empty()
    } else if deletable(e, n - 1, d) {
        del_ids(e, d, n - 1).push(e[n - 1].id.unwrap())
    } else {
        del_ids(e, d, n - 1)
    }
}

/// The identifiers the plan deletes.
pub open spec fn spec_to_delete(e: Seq<CmdV>, d: Seq<CmdV>) -> Seq<u64> {
    del_ids(e, d, e.len() as int)
}

/// The entries created among the first `n` desired entries: those whose
/// key no existing entry carries, verbatim and in order.
pub open spec fn crt(e: Seq<CmdV>, d: Seq<CmdV>, n: int) -> Seq<CmdV>
    decreases n,
{
    if n <= 0 {
        Seq::empty()
    } else if !has_key(e, key_of(d[n - 1])) {
        crt(e, d, n - 1).push(d[n - 1])
    } else {
        crt(e, d, n - 1)
    }
}

/// The entries the plan creates.
pub open spec fn spec_to_create(e: Seq<CmdV>, d: Seq<CmdV>) -> Seq<CmdV> {
    crt(e, d, d.len() as int)
}

/// The updates among the first `n` desired entries: where the key match
/// retains an existing entry that carries an identifier and is not
/// structurally equal, the pair of that identifier and the desired
/// entry, in order.
pub open spec fn upd(e: Seq<CmdV>, d: Seq<CmdV>, n: int) -> Seq<(u64, CmdV)>
    decreases n,
{
    if n <= 0 {
        Seq::empty()
    } else {
        let rest = upd(e, d, n - 1);
        match lookup_last(e, key_of(d[n - 1])) {
            Option::None => rest,
            Option::Some(ex) => match ex.id {
                Option::None => rest,
                Option::Some(eid) => if !cmd_equiv(d[n - 1], ex) {
                    rest.push((eid, d[n - 1]))
                } else {
                    rest
                },
            },
        }
    }
}

/// The updates the plan applies.
pub open spec fn spec_to_update(e: Seq<CmdV>, d: Seq<CmdV>) -> Seq<(u64, CmdV)> {
    upd(e, d, d.len() as int)
}

/// The view of an update list.
pub open spec fn pairs_view(s: Seq<(u64, CommandDefinition)>) -> Seq<(u64, CmdV)> {
    s.map_values(|p: (u64, CommandDefinition)| (p.0, cmd_view(p.1)))
}

/// The three-way plan that reconciliation produces.
#[derive(PartialEq, Eq, Debug)]
pub struct CommandDiff {
    /// Remote identifiers of stale entries, to delete.
    pub to_delete: Vec<u64>,
    /// Desired entries not yet registered, to create.
    pub to_create: Vec<CommandDefinition>,
    /// Pairs of a remote identifier and the desired entry to put in its
    /// place.
    pub to_update: Vec<(u64, CommandDefinition)>,
}

proof fn lemma_lookup_prefix(s: Seq<CmdV>, k: (CommandKind, Seq<char>), i: int)
    requires
        0 <= i <= s.len(),
        forall|m: int| i <= m < s.len() ==> #[trigger] key_of(s[m]) != k,
    ensures
        lookup_last(s, k) == lookup_last(s.take(i), k),
    decreases s.len(),
{
    if s.len() == 0 {
        assert(s.take(i) =~= s);
    } else if i == s.len() {
        assert(s.take(i) =~= s);
    } else {
        assert(key_of(s.last()) != k);
        lemma_lookup_prefix(s.drop_last(), k, i);
        assert(s.drop_last() =~= s.take(s.len() - 1));
        assert(s.drop_last().take(i) =~= s.take(i));
    }
}

/// Finds the index of the last entry of `list` whose kind and name form
/// the given key.
fn find_last(list: &[CommandDefinition], kind: CommandKind, name: &String) -> (r: Option<usize>)
    ensures
        match r {
            Option::None => lookup_last(cmds_view(list@), (kind, name@)) is None,
            Option::Some(i) => 0 <= i < list@.len() && lookup_last(cmds_view(list@), (kind, name@))
                == Option::Some(cmds_view(list@)[i as int]) && key_of(cmds_view(list@)[i as int])
                == (kind, name@),
        },
{
    let ghost cv = cmds_view(list@);
    let ghost k = (kind, name@);
    let mut i: usize = list.len();
    loop
        invariant
            cv == cmds_view(list@),
            k == (kind, name@),
            0 <= i <= list@.len(),
            cv.len() == list@.len(),
            forall|m: int| i <= m < cv.len() ==> #[trigger] key_of(cv[m]) != k,
        ensures
            cv == cmds_view(list@),
            0 <= i <= list@.len(),
            i > 0 ==> key_of(cv[i - 1]) == k,
            i == 0 ==> forall|m: int| 0 <= m < cv.len() ==> #[trigger] key_of(cv[m]) != k,
        decreases i,
    {
        if i == 0 {
            break;
        }
        let c = &list[i - 1];
        if c.kind == kind && c.name == *name {
            proof {
                assert(key_of(cv[i - 1]) == k);
            }
            break;
        }
        proof {
            assert(key_of(cv[i - 1]) != k);
        }
        i = i - 1;
    }
    if i == 0 {
        proof {
            lemma_lookup_prefix(cv, k, 0);
            assert(cv.take(0) =~= Seq::<CmdV>::empty());
        }
        Option::None
    } else {
        proof {
            lemma_lookup_prefix(cv, k, i as int);
            assert(cv.take(i as int).last() == cv[i - 1]);
        }
        Option::Some(i - 1)
    }
}

/// Whether a later entry of `list` shares the key of entry `i`.
fn has_later_with_key(list: &[CommandDefinition], i: usize) -> (r: bool)
    requires
        i < list@.len(),
    ensures
        r == exists|j: int|
            i < j < list@.len() && #[trigger] key_of(cmds_view(list@)[j]) == key_of(
                cmds_view(list@)[i as int],
            ),
{
    let ghost cv = cmds_view(list@);
    let n = list.len();
    proof {
        assert(i < n);
    }
    let mut j: usize = i + 1;
    while j < n
        invariant
            cv == cmds_view(list@),
            cv.len() == list@.len(),
            n == list@.len(),
            i < j <= list@.len(),
            forall|m: int| i < m < j ==> #[trigger] key_of(cv[m]) != key_of(cv[i as int]),
        decreases list@.len() - j,
    {
        let c = &list[j];
        let o = &list[i];
        if c.kind == o.kind && c.name == o.name {
            proof {
                assert(key_of(cv[j as int]) == key_of(cv[i as int]));
            }
            return true;
        }
        proof {
            assert(key_of(cv[j as int]) != key_of(cv[i as int]));
        }
        j = j + 1;
    }
    false
}

/// Computes the plan that reconciles `existing` with `desired`.
///
/// Total and deterministic: no input is rejected. Each output group is
/// characterized exactly; in particular an existing entry without a
/// remote identifier contributes neither a deletion nor an update.
pub fn diff(existing: &[CommandDefinition], desired: &[CommandDefinition]) -> (out: CommandDiff)
    ensures
        out.to_delete@ == spec_to_delete(cmds_view(existing@), cmds_view(desired@)),
        cmds_view(out.to_create@) == spec_to_create(cmds_view(existing@), cmds_view(desired@)),
        pairs_view(out.to_update@) == spec_to_update(cmds_view(existing@), cmds_view(desired@)),
{
    let ghost ev = cmds_view(existing@);
    let ghost dv = cmds_view(desired@);

    let mut to_delete: Vec<u64> = Vec::new();
    let mut i: usize = 0;
    while i < existing.len()
        invariant
            ev == cmds_view(existing@),
            dv == cmds_view(desired@),
            ev.len() == existing@.len(),
            0 <= i <= existing@.len(),
            to_delete@ == del_ids(ev, dv, i as int),
        decreases existing@.len() - i,
    {
        let c = &existing[i];
        match c.id {
            Option::None => {
                proof {
                    assert(!deletable(ev, i as int, dv));
                }
            },
            Option::Some(cid) => {
                let later = has_later_with_key(existing, i);
                if later {
                    proof {
                        assert(!deletable(ev, i as int, dv));
                    }
                } else {
                    match find_last(desired, c.kind, &c.name) {
                        Option::Some(_) => {
                            proof {
                                assert(has_key(dv, key_of(ev[i as int])));
                                assert(!deletable(ev, i as int, dv));
                            }
                        },
                        Option::None => {
                            proof {
                                assert(deletable(ev, i as int, dv));
                                assert(ev[i as int].id == Option::<u64>::Some(cid));
                            }
                            to_delete.push(cid);
                        },
                    }
                }
            },
        }
        i = i + 1;
    }

    let mut to_create: Vec<CommandDefinition> = Vec::new();
    let mut i: usize = 0;
    while i < desired.len()
        invariant
            ev == cmds_view(existing@),
            dv == cmds_view(desired@),
            dv.len() == desired@.len(),
            0 <= i <= desired@.len(),
            cmds_view(to_create@) == crt(ev, dv, i as int),
        decreases desired@.len() - i,
    {
        let c = &desired[i];
        match find_last(existing, c.kind, &c.name) {
            Option::Some(_) => {
                proof {
                    assert(has_key(ev, key_of(dv[i as int])));
                }
            },
            Option::None => {
                let ghost before = to_create@;
                to_create.push(c.duplicate());
                proof {
                    assert(cmds_view(to_create@) =~= cmds_view(before).push(dv[i as int]));
                }
            },
        }
        i = i + 1;
    }

    let mut to_update: Vec<(u64, CommandDefinition)> = Vec::new();
    let mut i: usize = 0;
    while i < desired.len()
        invariant
            ev == cmds_view(existing@),
            dv == cmds_view(desired@),
            dv.len() == desired@.len(),
            ev.len() == existing@.len(),
            0 <= i <= desired@.len(),
            pairs_view(to_update@) == upd(ev, dv, i as int),
        decreases desired@.len() - i,
    {
        let c = &desired[i];
        match find_last(existing, c.kind, &c.name) {
            Option::None => {},
            Option::Some(idx) => {
                let ex = &existing[idx];
                match ex.id {
                    Option::None => {},
                    Option::Some(eid) => {
                        let equal = command_eq(c, ex);
                        if !equal {
                            let ghost before = to_update@;
                            to_update.push((eid, c.duplicate()));
                            proof {
                                assert(pairs_view(to_update@) =~= pairs_view(before).push(
                                    (eid, dv[i as int]),
                                ));
                            }
                        }
                    },
                }
            },
        }
        i = i + 1;
    }

    CommandDiff { to_delete, to_create, to_update }
}

} // verus!
