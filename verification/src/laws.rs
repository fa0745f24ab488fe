//! Laws of the reconciler and of the structural equality engine,
//! stated over the same specifications the executable contracts use.
use vstd::prelude::*;

use crate::data::ChoiceV;
use crate::data::CmdV;
use crate::data::OptV;
use crate::lex::lemma_str_le_antisym;
use crate::lex::lemma_str_le_total;
use crate::lex::lemma_str_le_trans;
use crate::norm::choice_name_le;
use crate::norm::choice_norm;
use crate::norm::choices_norm_raw;
use crate::norm::lemma_opts_norm_raw_index;
use crate::norm::lemma_opts_norm_raw_len;
use crate::norm::opt_name_le;
use crate::norm::opts_norm_raw;
use crate::norm::ChoiceN;
use crate::norm::OptN;
use crate::sorting::lemma_sort_by_st_multiset;
use crate::sorting::lemma_sort_by_st_sorted;
use crate::sorting::lemma_sorted_unique;
use crate::sorting::sort_by_st;
use crate::norm::cmd_equiv;
use crate::norm::cmd_norm;
use crate::norm::flag_norm;
use crate::norm::loc_norm;
use crate::norm::opt_norm;
use crate::reconcile::crt;
use crate::reconcile::del_ids;
use crate::reconcile::deletable;
use crate::reconcile::has_key;
use crate::reconcile::key_of;
use crate::reconcile::lookup_last;
use crate::reconcile::spec_to_create;
use crate::reconcile::spec_to_delete;
use crate::reconcile::spec_to_update;
use crate::reconcile::upd;

verus! {

/// Structural equality is reflexive.
pub proof fn lemma_equiv_reflexive(a: CmdV)
    ensures
        cmd_equiv(a, a),
{
}

/// Structural equality is symmetric.
pub proof fn lemma_equiv_symmetric(a: CmdV, b: CmdV)
    ensures
        cmd_equiv(a, b) == cmd_equiv(b, a),
{
}

/// Structural equality is transitive.
pub proof fn lemma_equiv_transitive(a: CmdV, b: CmdV, c: CmdV)
    requires
        cmd_equiv(a, b),
        cmd_equiv(b, c),
    ensures
        cmd_equiv(a, c),
{
}

/// Every entry's key is present in its own collection.
proof fn lemma_has_own_key(s: Seq<CmdV>, i: int)
    requires
        0 <= i < s.len(),
    ensures
        has_key(s, key_of(s[i])),
    decreases s.len(),
{
    if key_of(s.last()) == key_of(s[i]) {
    } else {
        lemma_has_own_key(s.drop_last(), i);
    }
}

/// With pairwise distinct keys, the key match retains each entry
/// itself.
proof fn lemma_lookup_self(s: Seq<CmdV>, i: int)
    requires
        0 <= i < s.len(),
        forall|p: int, q: int|
            0 <= p < q < s.len() ==> key_of(#[trigger] s[p]) != key_of(#[trigger] s[q]),
    ensures
        lookup_last(s, key_of(s[i])) == Option::Some(s[i]),
    decreases s.len(),
{
    if i == s.len() - 1 {
    } else {
        assert(key_of(s[i]) != key_of(s[s.len() - 1]));
        lemma_lookup_self(s.drop_last(), i);
    }
}

/// Reconciling a collection with itself, identifiers preserved, plans
/// nothing, provided its identity keys are pairwise distinct. With a
/// repeated key, an entry shadowed in the index can still be scheduled
/// for an update against the entry that shadows it.
pub proof fn lemma_reconcile_idempotent(x: Seq<CmdV>)
    requires
        forall|p: int, q: int|
            0 <= p < q < x.len() ==> key_of(#[trigger] x[p]) != key_of(#[trigger] x[q]),
    ensures
        spec_to_delete(x, x) == Seq::<u64>::empty(),
        spec_to_create(x, x) == Seq::<CmdV>::empty(),
        spec_to_update(x, x) == Seq::<(u64, CmdV)>::empty(),
{
    lemma_idem_prefix(x, x.len() as int);
}

proof fn lemma_idem_prefix(x: Seq<CmdV>, n: int)
    requires
        n <= x.len(),
        forall|p: int, q: int|
            0 <= p < q < x.len() ==> key_of(#[trigger] x[p]) != key_of(#[trigger] x[q]),
    ensures
        del_ids(x, x, n) == Seq::<u64>::empty(),
        crt(x, x, n) == Seq::<CmdV>::empty(),
        upd(x, x, n) == Seq::<(u64, CmdV)>::empty(),
    decreases n,
{
    if n > 0 {
        lemma_idem_prefix(x, n - 1);
        lemma_has_own_key(x, n - 1);
        assert(!deletable(x, n - 1, x));
        lemma_lookup_self(x, n - 1);
        assert(cmd_equiv(x[n - 1], x[n - 1]));
    }
}

/// Against an empty remote state, every desired entry is created,
/// verbatim and in order, and nothing is deleted or updated.
pub proof fn lemma_reconcile_create_only(d: Seq<CmdV>)
    ensures
        spec_to_delete(Seq::empty(), d) == Seq::<u64>::empty(),
        spec_to_create(Seq::empty(), d) == d,
        spec_to_update(Seq::empty(), d) == Seq::<(u64, CmdV)>::empty(),
{
    lemma_create_only_prefix(d, d.len() as int);
    assert(d.take(d.len() as int) =~= d);
}

proof fn lemma_create_only_prefix(d: Seq<CmdV>, n: int)
    requires
        0 <= n <= d.len(),
    ensures
        crt(Seq::empty(), d, n) == d.take(n),
        upd(Seq::empty(), d, n) == Seq::<(u64, CmdV)>::empty(),
    decreases n,
{
    if n == 0 {
        assert(d.take(0) =~= Seq::<CmdV>::empty());
    } else {
        lemma_create_only_prefix(d, n - 1);
        assert(d.take(n - 1).push(d[n - 1]) =~= d.take(n));
    }
}

/// An existing entry whose key is no longer desired has exactly its
/// identifier deleted when it carries one.
pub proof fn lemma_removed_entry_deleted(e: CmdV, eid: u64)
    requires
        e.id == Option::<u64>::Some(eid),
    ensures
        spec_to_delete(seq![e], Seq::empty()) == seq![eid],
        spec_to_create(seq![e], Seq::empty()) == Seq::<CmdV>::empty(),
        spec_to_update(seq![e], Seq::empty()) == Seq::<(u64, CmdV)>::empty(),
{
    assert(deletable(seq![e], 0, Seq::empty()));
    assert(del_ids(seq![e], Seq::empty(), 0) == Seq::<u64>::empty());
    assert(seq![e][0].id.unwrap() == eid);
    assert(del_ids(seq![e], Seq::empty(), 1) =~= seq![eid]);
}

/// Wherever the key match retains an existing entry, that entry is a
/// member of the existing collection.
proof fn lemma_lookup_member(s: Seq<CmdV>, k: (crate::data::CommandKind, Seq<char>))
    requires
        lookup_last(s, k) is Some,
    ensures
        exists|i: int| 0 <= i < s.len() && s[i] == lookup_last(s, k).unwrap(),
    decreases s.len(),
{
    if key_of(s.last()) == k {
        assert(s[s.len() - 1] == lookup_last(s, k).unwrap());
    } else {
        lemma_lookup_member(s.drop_last(), k);
        let i = choose|i: int|
            0 <= i < s.drop_last().len() && s.drop_last()[i] == lookup_last(
                s.drop_last(),
                k,
            ).unwrap();
        assert(s[i] == lookup_last(s, k).unwrap());
    }
}

/// Every identifier in `ids` is carried by some entry of `e`.
pub open spec fn ids_from(e: Seq<CmdV>, ids: Seq<u64>) -> bool {
    forall|k: int|
        0 <= k < ids.len() ==> exists|i: int|
            0 <= i < e.len() && (#[trigger] e[i].id) == Option::Some(#[trigger] ids[k])
}

proof fn lemma_ids_from_push(e: Seq<CmdV>, ids: Seq<u64>, x: u64)
    requires
        ids_from(e, ids),
        exists|i: int| 0 <= i < e.len() && (#[trigger] e[i].id) == Option::Some(x),
    ensures
        ids_from(e, ids.push(x)),
{
    assert forall|k: int| 0 <= k < ids.push(x).len() implies exists|i: int|
        0 <= i < e.len() && (#[trigger] e[i].id) == Option::Some(#[trigger] ids.push(x)[k]) by {
        if k < ids.len() {
            assert(ids.push(x)[k] == ids[k]);
        } else {
            assert(ids.push(x)[k] == x);
        }
    }
}

/// No identifier in the plan is invented: every deleted identifier and
/// every update's identifier is carried by some existing entry. An
/// existing entry without a remote identifier therefore contributes
/// neither a deletion nor an update.
pub proof fn lemma_no_identifier_safety(e: Seq<CmdV>, d: Seq<CmdV>)
    ensures
        ids_from(e, spec_to_delete(e, d)),
        ids_from(e, spec_to_update(e, d).map_values(|p: (u64, CmdV)| p.0)),
{
    lemma_delete_ids_from_existing(e, d, e.len() as int);
    lemma_update_ids_from_existing(e, d, d.len() as int);
}

proof fn lemma_delete_ids_from_existing(e: Seq<CmdV>, d: Seq<CmdV>, n: int)
    requires
        n <= e.len(),
    ensures
        ids_from(e, del_ids(e, d, n)),
    decreases n,
{
    if n > 0 {
        lemma_delete_ids_from_existing(e, d, n - 1);
        if deletable(e, n - 1, d) {
            assert(e[n - 1].id == Option::Some(e[n - 1].id.unwrap()));
            lemma_ids_from_push(e, del_ids(e, d, n - 1), e[n - 1].id.unwrap());
        }
    }
}

proof fn lemma_update_ids_from_existing(e: Seq<CmdV>, d: Seq<CmdV>, n: int)
    requires
        n <= d.len(),
    ensures
        ids_from(e, upd(e, d, n).map_values(|p: (u64, CmdV)| p.0)),
    decreases n,
{
    let f = |p: (u64, CmdV)| p.0;
    if n <= 0 {
        assert(upd(e, d, n).map_values(f) =~= Seq::<u64>::empty());
    } else {
        lemma_update_ids_from_existing(e, d, n - 1);
        let rest = upd(e, d, n - 1);
        match lookup_last(e, key_of(d[n - 1])) {
            Option::None => {},
            Option::Some(ex) => match ex.id {
                Option::None => {},
                Option::Some(eid) => {
                    if !cmd_equiv(d[n - 1], ex) {
                        lemma_lookup_member(e, key_of(d[n - 1]));
                        let i = choose|i: int| 0 <= i < e.len() && e[i] == ex;
                        assert(e[i].id == Option::Some(eid));
                        lemma_ids_from_push(e, rest.map_values(f), eid);
                        assert(upd(e, d, n).map_values(f) =~= rest.map_values(f).push(eid));
                    }
                },
            },
        }
    }
}

/// A command with a flag absent is structurally equal to the same
/// command with that flag explicitly `false`; likewise an absent
/// localization map and the empty one. Stated here for the
/// command-level fields.
pub proof fn lemma_cmd_defaults_equivalent(a: CmdV, b: CmdV)
    requires
        b.name == a.name,
        b.kind == a.kind,
        b.description == a.description,
        b.default_member_permissions == a.default_member_permissions,
        flag_norm(b.dm_allowed) == flag_norm(a.dm_allowed),
        flag_norm(b.nsfw) == flag_norm(a.nsfw),
        loc_norm(b.name_localizations) == loc_norm(a.name_localizations),
        loc_norm(b.description_localizations) == loc_norm(a.description_localizations),
        b.options == a.options,
    ensures
        cmd_equiv(a, b),
{
}

/// The same default equivalence for the option-level fields `required`
/// and `autocomplete`, an option's localization maps, and an absent
/// channel-type list against an empty one.
pub proof fn lemma_opt_defaults_equivalent(a: OptV, b: OptV)
    requires
        b.name == a.name,
        b.kind == a.kind,
        b.description == a.description,
        flag_norm(b.required) == flag_norm(a.required),
        flag_norm(b.autocomplete) == flag_norm(a.autocomplete),
        loc_norm(b.name_localizations) == loc_norm(a.name_localizations),
        loc_norm(b.description_localizations) == loc_norm(a.description_localizations),
        crate::norm::ct_norm(b.channel_types) == crate::norm::ct_norm(a.channel_types),
        b.min_length == a.min_length,
        b.max_length == a.max_length,
        b.min_value == a.min_value,
        b.max_value == a.max_value,
        b.choices == a.choices,
        b.options == a.options,
    ensures
        opt_norm(a) == opt_norm(b),
{
}

broadcast use vstd::seq_lib::group_to_multiset_ensures;

proof fn lemma_opts_norm_raw_remove(s: Seq<OptV>, j: int)
    requires
        0 <= j < s.len(),
    ensures
        opts_norm_raw(s.remove(j)) == opts_norm_raw(s).remove(j),
{
    lemma_opts_norm_raw_len(s);
    lemma_opts_norm_raw_len(s.remove(j));
    assert forall|k: int| 0 <= k < s.remove(j).len() implies opts_norm_raw(s.remove(j))[k]
        == opts_norm_raw(s).remove(j)[k] by {
        lemma_opts_norm_raw_index(s.remove(j), k);
        if k < j {
            lemma_opts_norm_raw_index(s, k);
            assert(s.remove(j)[k] == s[k]);
        } else {
            lemma_opts_norm_raw_index(s, k + 1);
            assert(s.remove(j)[k] == s[k + 1]);
        }
    }
    assert(opts_norm_raw(s.remove(j)) =~= opts_norm_raw(s).remove(j));
}

/// Normalizing option lists that hold the same options in some order
/// yields the same options in some order.
proof fn lemma_opts_norm_raw_multiset(s1: Seq<OptV>, s2: Seq<OptV>)
    requires
        s1.to_multiset() == s2.to_multiset(),
    ensures
        opts_norm_raw(s1).to_multiset() == opts_norm_raw(s2).to_multiset(),
    decreases s1.len(),
{
    assert(s1.to_multiset().len() == s1.len());
    assert(s2.to_multiset().len() == s2.len());
    if s1.len() == 0 {
        assert(opts_norm_raw(s1) =~= opts_norm_raw(s2));
    } else {
        let x = s1.last();
        assert(s1.contains(x));
        assert(s2.to_multiset().count(x) > 0);
        assert(s2.contains(x));
        let j = choose|j: int| 0 <= j < s2.len() && s2[j] == x;
        let s1p = s1.drop_last();
        assert(s1.remove(s1.len() - 1) =~= s1p);
        assert(s1p.to_multiset() == s1.to_multiset().remove(x));
        let s2p = s2.remove(j);
        assert(s2p.to_multiset() == s2.to_multiset().remove(x));
        lemma_opts_norm_raw_multiset(s1p, s2p);
        assert(opts_norm_raw(s1) == opts_norm_raw(s1p).push(opt_norm(x)));
        lemma_opts_norm_raw_remove(s2, j);
        lemma_opts_norm_raw_len(s2);
        lemma_opts_norm_raw_index(s2, j);
        assert(opts_norm_raw(s2).remove(j).to_multiset() == opts_norm_raw(s2).to_multiset().remove(
            opt_norm(x),
        ));
        assert(opts_norm_raw(s2).contains(opt_norm(x)));
        assert(opts_norm_raw(s2).to_multiset().count(opt_norm(x)) > 0);
        assert(opts_norm_raw(s2).to_multiset().remove(opt_norm(x)).insert(opt_norm(x))
            =~= opts_norm_raw(s2).to_multiset());
    }
}

/// Two command definitions differing only in the listed order of their
/// options are structurally equal, provided the option names are
/// pairwise distinct. With a repeated name the defined tie-break, a
/// stable sort by name, can keep two differing same-named options in
/// either order, and the comparison is allowed to tell them apart.
pub proof fn lemma_options_order_insensitive(a: CmdV, b: CmdV)
    requires
        b == (CmdV { options: b.options, ..a }),
        a.options.to_multiset() == b.options.to_multiset(),
        forall|i: int, j: int|
            0 <= i < j < a.options.len() ==> (#[trigger] a.options[i]).name
                != (#[trigger] a.options[j]).name,
    ensures
        cmd_equiv(a, b),
{
    let leq = opt_name_le();
    assert forall|u: OptN, v: OptN| #[trigger] leq(u, v) || #[trigger] leq(v, u) by {
        lemma_str_le_total(u.name, v.name);
    }
    assert forall|u: OptN, v: OptN, w: OptN|
        #[trigger] leq(u, v) && #[trigger] leq(v, w) implies leq(u, w) by {
        lemma_str_le_trans(u.name, v.name, w.name);
    }
    let r1 = opts_norm_raw(a.options);
    let r2 = opts_norm_raw(b.options);
    lemma_opts_norm_raw_multiset(a.options, b.options);
    let q1 = sort_by_st(r1, leq);
    let q2 = sort_by_st(r2, leq);
    lemma_sort_by_st_sorted(r1, leq);
    lemma_sort_by_st_sorted(r2, leq);
    lemma_sort_by_st_multiset(r1, leq);
    lemma_sort_by_st_multiset(r2, leq);
    lemma_opts_norm_raw_len(a.options);
    lemma_opts_norm_raw_len(b.options);
    assert forall|u: OptN, v: OptN|
        q1.contains(u) && q2.contains(v) && #[trigger] leq(u, v) && #[trigger] leq(v, u)
            implies u == v by {
        assert(q1.to_multiset().count(u) > 0);
        assert(r1.contains(u));
        let i1 = choose|i1: int| 0 <= i1 < r1.len() && r1[i1] == u;
        lemma_opts_norm_raw_index(a.options, i1);
        assert(u == opt_norm(a.options[i1]));
        assert(q2.to_multiset().count(v) > 0);
        assert(r1.contains(v));
        let i2 = choose|i2: int| 0 <= i2 < r1.len() && r1[i2] == v;
        lemma_opts_norm_raw_index(a.options, i2);
        assert(v == opt_norm(a.options[i2]));
        lemma_str_le_antisym(u.name, v.name);
        assert(a.options[i1].name == a.options[i2].name);
        assert(i1 == i2);
    }
    lemma_sorted_unique(q1, q2, leq);
    assert(cmd_norm(a) == cmd_norm(b));
}

proof fn lemma_choices_norm_raw_remove(s: Seq<ChoiceV>, j: int)
    requires
        0 <= j < s.len(),
    ensures
        choices_norm_raw(s.remove(j)) == choices_norm_raw(s).remove(j),
{
    assert forall|k: int| 0 <= k < s.remove(j).len() implies choices_norm_raw(s.remove(j))[k]
        == choices_norm_raw(s).remove(j)[k] by {
        if k < j {
            assert(s.remove(j)[k] == s[k]);
        } else {
            assert(s.remove(j)[k] == s[k + 1]);
        }
    }
    assert(choices_norm_raw(s.remove(j)) =~= choices_norm_raw(s).remove(j));
}

proof fn lemma_choices_norm_raw_multiset(s1: Seq<ChoiceV>, s2: Seq<ChoiceV>)
    requires
        s1.to_multiset() == s2.to_multiset(),
    ensures
        choices_norm_raw(s1).to_multiset() == choices_norm_raw(s2).to_multiset(),
    decreases s1.len(),
{
    assert(s1.to_multiset().len() == s1.len());
    assert(s2.to_multiset().len() == s2.len());
    if s1.len() == 0 {
        assert(choices_norm_raw(s1) =~= choices_norm_raw(s2));
    } else {
        let x = s1.last();
        assert(s1.contains(x));
        assert(s2.to_multiset().count(x) > 0);
        assert(s2.contains(x));
        let j = choose|j: int| 0 <= j < s2.len() && s2[j] == x;
        let s1p = s1.drop_last();
        assert(s1.remove(s1.len() - 1) =~= s1p);
        assert(s1p.to_multiset() == s1.to_multiset().remove(x));
        let s2p = s2.remove(j);
        assert(s2p.to_multiset() == s2.to_multiset().remove(x));
        lemma_choices_norm_raw_multiset(s1p, s2p);
        assert(choices_norm_raw(s1) =~= choices_norm_raw(s1p).push(choice_norm(x)));
        lemma_choices_norm_raw_remove(s2, j);
        assert(choices_norm_raw(s2).remove(j).to_multiset() == choices_norm_raw(
            s2,
        ).to_multiset().remove(choice_norm(x)));
        assert(choices_norm_raw(s2).contains(choice_norm(x)));
        assert(choices_norm_raw(s2).to_multiset().count(choice_norm(x)) > 0);
        assert(choices_norm_raw(s2).to_multiset().remove(choice_norm(x)).insert(choice_norm(x))
            =~= choices_norm_raw(s2).to_multiset());
    }
}

/// Two options differing only in the listed order of their choices are
/// structurally equal, provided the choice names are pairwise distinct.
pub proof fn lemma_choices_order_insensitive(a: OptV, b: OptV, ca: Seq<ChoiceV>, cb: Seq<ChoiceV>)
    requires
        b == (OptV { choices: b.choices, ..a }),
        a.choices == Option::Some(ca),
        b.choices == Option::Some(cb),
        ca.to_multiset() == cb.to_multiset(),
        forall|i: int, j: int|
            0 <= i < j < ca.len() ==> (#[trigger] ca[i]).name != (#[trigger] ca[j]).name,
    ensures
        opt_norm(a) == opt_norm(b),
{
    let leq = choice_name_le();
    assert forall|u: ChoiceN, v: ChoiceN| #[trigger] leq(u, v) || #[trigger] leq(v, u) by {
        lemma_str_le_total(u.name, v.name);
    }
    assert forall|u: ChoiceN, v: ChoiceN, w: ChoiceN|
        #[trigger] leq(u, v) && #[trigger] leq(v, w) implies leq(u, w) by {
        lemma_str_le_trans(u.name, v.name, w.name);
    }
    let r1 = choices_norm_raw(ca);
    let r2 = choices_norm_raw(cb);
    lemma_choices_norm_raw_multiset(ca, cb);
    let q1 = sort_by_st(r1, leq);
    let q2 = sort_by_st(r2, leq);
    lemma_sort_by_st_sorted(r1, leq);
    lemma_sort_by_st_sorted(r2, leq);
    lemma_sort_by_st_multiset(r1, leq);
    lemma_sort_by_st_multiset(r2, leq);
    assert forall|u: ChoiceN, v: ChoiceN|
        q1.contains(u) && q2.contains(v) && #[trigger] leq(u, v) && #[trigger] leq(v, u)
            implies u == v by {
        assert(q1.to_multiset().count(u) > 0);
        assert(r1.contains(u));
        let i1 = choose|i1: int| 0 <= i1 < r1.len() && r1[i1] == u;
        assert(u == choice_norm(ca[i1]));
        assert(q2.to_multiset().count(v) > 0);
        assert(r1.contains(v));
        let i2 = choose|i2: int| 0 <= i2 < r1.len() && r1[i2] == v;
        assert(v == choice_norm(ca[i2]));
        lemma_str_le_antisym(u.name, v.name);
        assert(ca[i1].name == ca[i2].name);
        assert(i1 == i2);
    }
    lemma_sorted_unique(q1, q2, leq);
    assert(crate::norm::choices_norm(ca) == crate::norm::choices_norm(cb));
}

} // verus!
