//! The structural equality engine.
//!
//! A pure recursive comparator over the command schema. Each function
//! decides equality of the canonical forms of its arguments: scalar
//! fields by value, optional flags with `false` substituted for absence,
//! localization maps as maps, and options, choices and channel types
//! without regard to their listed order, by comparing them in name
//! (respectively numeric) order.
use vstd::prelude::*;

use crate::data::as_map;
use crate::data::choice_view;
use crate::data::choice_value_view;
use crate::data::choices_view;
use crate::data::cmd_view;
use crate::data::lemma_opts_view_index;
use crate::data::lemma_sorted_entries_canonical;
use crate::data::lemma_opts_view_len;
use crate::data::opt_view;
use crate::data::opts_view;
use crate::data::ChoiceValue;
use crate::data::CommandDefinition;
use crate::data::CommandOption;
use crate::data::CommandOptionChoice;
use crate::data::LocPairs;
use crate::data::LocaleMap;
use crate::data::NumericValue;
use crate::lex::str_le_exec;
use crate::norm::choice_name_le;
use crate::norm::choice_norm;
use crate::norm::choices_norm;
use crate::norm::choices_norm_raw;
use crate::norm::cmd_equiv;
use crate::norm::ct_norm;
use crate::norm::flag_norm;
use crate::norm::lemma_opts_norm_raw_len;
use crate::norm::lemma_opts_norm_raw_push;
use crate::norm::loc_norm;
use crate::norm::opt_name_le;
use crate::norm::opt_norm;
use crate::norm::opts_norm_raw;
use crate::norm::ChoiceN;
use crate::norm::OptN;
use crate::sorting::le_u8;
use crate::sorting::lemma_insert_by_split;
use crate::sorting::lemma_sort_by_st_len;
use crate::sorting::lemma_sort_by_st_push;
use crate::sorting::sort_by_st;
use crate::sorting::Sorted;

verus! {

/// The view of an optional localization map handed over by reference.
pub open spec fn loc_ref_view(a: Option<&LocaleMap>) -> Option<LocPairs> {
    match a {
        Option::None => Option::None,
        Option::Some(m) => Option::Some(m@),
    }
}

/// Decides whether two optional localization maps denote the same map;
/// an absent map counts as the empty map.
pub fn localizations_eq(a: Option<&LocaleMap>, b: Option<&LocaleMap>) -> (r: bool)
    ensures
        r == (loc_norm(loc_ref_view(a)) == loc_norm(loc_ref_view(b))),
        r == (as_map(loc_norm(loc_ref_view(a))) == as_map(loc_norm(loc_ref_view(b)))),
{
    let ghost na = loc_norm(loc_ref_view(a));
    let ghost nb = loc_norm(loc_ref_view(b));
    match (a, b) {
        (Option::Some(x), Option::Some(y)) => {
            proof {
                use_type_invariant(x);
                use_type_invariant(y);
                if na != nb && as_map(na) == as_map(nb) {
                    lemma_sorted_entries_canonical(na, nb);
                    assert(false);
                }
            }
            x.same_as(y)
        },
        (Option::Some(x), Option::None) => {
            let e = x.is_empty();
            proof {
                use_type_invariant(x);
                if e {
                    assert(x@ =~= Seq::<(Seq<char>, Seq<char>)>::empty());
                }
                if na != nb && as_map(na) == as_map(nb) {
                    lemma_sorted_entries_canonical(na, nb);
                    assert(false);
                }
            }
            e
        },
        (Option::None, Option::Some(y)) => {
            let e = y.is_empty();
            proof {
                use_type_invariant(y);
                if e {
                    assert(y@ =~= Seq::<(Seq<char>, Seq<char>)>::empty());
                }
                if na != nb && as_map(na) == as_map(nb) {
                    lemma_sorted_entries_canonical(na, nb);
                    assert(false);
                }
            }
            e
        },
        (Option::None, Option::None) => true,
    }
}

fn flag_eq(a: Option<bool>, b: Option<bool>) -> (r: bool)
    ensures
        r == (flag_norm(a) == flag_norm(b)),
{
    let av = match a {
        Option::Some(t) => t,
        Option::None => false,
    };
    let bv = match b {
        Option::Some(t) => t,
        Option::None => false,
    };
    av == bv
}

fn opt_u16_eq(a: Option<u16>, b: Option<u16>) -> (r: bool)
    ensures
        r == (a == b),
{
    match (a, b) {
        (Option::None, Option::None) => true,
        (Option::Some(x), Option::Some(y)) => x == y,
        _ => false,
    }
}

fn opt_u64_eq(a: Option<u64>, b: Option<u64>) -> (r: bool)
    ensures
        r == (a == b),
{
    match (a, b) {
        (Option::None, Option::None) => true,
        (Option::Some(x), Option::Some(y)) => x == y,
        _ => false,
    }
}

fn num_eq(a: Option<NumericValue>, b: Option<NumericValue>) -> (r: bool)
    ensures
        r == (a == b),
{
    match (a, b) {
        (Option::None, Option::None) => true,
        (Option::Some(x), Option::Some(y)) => x == y,
        _ => false,
    }
}

fn choice_value_eq(a: &ChoiceValue, b: &ChoiceValue) -> (r: bool)
    ensures
        r == (choice_value_view(*a) == choice_value_view(*b)),
{
    match (a, b) {
        (ChoiceValue::Text(x), ChoiceValue::Text(y)) => *x == *y,
        (ChoiceValue::Int(x), ChoiceValue::Int(y)) => *x == *y,
        (ChoiceValue::NumBits(x), ChoiceValue::NumBits(y)) => *x == *y,
        _ => false,
    }
}

/// The view of an optional channel-type list.
pub open spec fn ct_view(a: Option<Vec<u8>>) -> Option<Seq<u8>> {
    match a {
        Option::None => Option::None,
        Option::Some(v) => Option::Some(v@),
    }
}

fn ct_copy_or_empty(a: &Option<Vec<u8>>) -> (r: Vec<u8>)
    ensures
        r@ == ct_norm(ct_view(*a)),
{
    match a {
        Option::None => Vec::new(),
        Option::Some(v) => {
            let mut c: Vec<u8> = Vec::new();
            let mut i: usize = 0;
            while i < v.len()
                invariant
                    0 <= i <= v@.len(),
                    c@ == v@.take(i as int),
                decreases v@.len() - i,
            {
                c.push(v[i]);
                proof {
                    assert(c@ =~= v@.take(i + 1));
                }
                i = i + 1;
            }
            proof {
                assert(v@.take(v@.len() as int) =~= v@);
            }
            c
        },
    }
}

fn vec_u8_eq(a: &Vec<u8>, b: &Vec<u8>) -> (r: bool)
    ensures
        r == (a@ == b@),
{
    if a.len() != b.len() {
        return false;
    }
    let mut i: usize = 0;
    while i < a.len()
        invariant
            a@.len() == b@.len(),
            0 <= i <= a@.len(),
            forall|j: int| 0 <= j < i ==> a@[j] == b@[j],
        decreases a@.len() - i,
    {
        if a[i] != b[i] {
            return false;
        }
        i = i + 1;
    }
    proof {
        assert(a@ =~= b@);
    }
    true
}

fn channel_types_eq(a: &Option<Vec<u8>>, b: &Option<Vec<u8>>) -> (r: bool)
    ensures
        r == (sort_by_st(ct_norm(ct_view(*a)), le_u8()) == sort_by_st(
            ct_norm(ct_view(*b)),
            le_u8(),
        )),
{
    let va = ct_copy_or_empty(a);
    let vb = ct_copy_or_empty(b);
    let sa = va.sorted();
    let sb = vb.sorted();
    vec_u8_eq(&sa, &sb)
}

/// What the index permutation `p` selects out of `v`, normalized.
pub open spec fn choice_idx_map(p: Seq<usize>, v: Seq<CommandOptionChoice>) -> Seq<ChoiceN> {
    Seq::new(p.len(), |k: int| choice_norm(choice_view(v[p[k] as int])))
}

fn sorted_choice_idx(v: &Vec<CommandOptionChoice>) -> (p: Vec<usize>)
    ensures
        p@.len() == v@.len(),
        forall|k: int| 0 <= k < p@.len() ==> 0 <= #[trigger] p@[k] < v@.len(),
        choice_idx_map(p@, v@) == choices_norm(choices_view(v@)),
{
    let ghost cs = choices_view(v@);
    let mut p: Vec<usize> = Vec::new();
    let mut j: usize = 0;
    while j < v.len()
        invariant
            0 <= j <= v@.len(),
            cs == choices_view(v@),
            p@.len() == j,
            forall|k: int| 0 <= k < p@.len() ==> 0 <= #[trigger] p@[k] < v@.len(),
            choice_idx_map(p@, v@) == sort_by_st(choices_norm_raw(cs.take(j as int)), choice_name_le()),
        decreases v@.len() - j,
    {
        let ghost t = choice_idx_map(p@, v@);
        let ghost x = choice_norm(choice_view(v@[j as int]));
        let mut pos: usize = p.len();
        loop
            invariant
                0 <= pos <= p@.len(),
                p@.len() == j <= v@.len(),
                forall|k: int| 0 <= k < p@.len() ==> 0 <= #[trigger] p@[k] < v@.len(),
                t == choice_idx_map(p@, v@),
                x == choice_norm(choice_view(v@[j as int])),
                j < v@.len(),
                forall|m: int| pos <= m < t.len() ==> !choice_name_le()(#[trigger] t[m], x),
            ensures
                0 <= pos <= t.len(),
                forall|m: int| pos <= m < t.len() ==> !choice_name_le()(#[trigger] t[m], x),
                pos > 0 ==> choice_name_le()(t[pos - 1], x),
            decreases pos,
        {
            if pos == 0 {
                break;
            }
            let le = str_le_exec(v[p[pos - 1]].name.as_str(), v[j].name.as_str());
            if le {
                break;
            }
            pos = pos - 1;
        }
        proof {
            lemma_insert_by_split(t, x, choice_name_le(), pos as int);
        }
        p.insert(pos, j);
        proof {
            assert(choice_idx_map(p@, v@) =~= t.take(pos as int) + seq![x] + t.skip(pos as int));
            assert(choices_norm_raw(cs.take(j as int)).push(x) =~= choices_norm_raw(
                cs.take(j + 1),
            ));
            lemma_sort_by_st_push(choices_norm_raw(cs.take(j as int)), x, choice_name_le());
        }
        j = j + 1;
    }
    proof {
        assert(cs.take(cs.len() as int) =~= cs);
    }
    p
}

/// The canonical choice list of an optional choice vector; absence
/// counts as empty.
pub open spec fn norm_choices_of(a: Option<Vec<CommandOptionChoice>>) -> Seq<ChoiceN> {
    match a {
        Option::None => Seq::empty(),
        Option::Some(v) => choices_norm(choices_view(v@)),
    }
}

fn cmd_opt_choice_eq(a: &CommandOptionChoice, b: &CommandOptionChoice) -> (r: bool)
    ensures
        r == (choice_norm(choice_view(*a)) == choice_norm(choice_view(*b))),
{
    if !(a.name == b.name) {
        return false;
    }
    if !localizations_eq(a.name_localizations.as_ref(), b.name_localizations.as_ref()) {
        return false;
    }
    choice_value_eq(&a.value, &b.value)
}

fn choices_eq(a: &Option<Vec<CommandOptionChoice>>, b: &Option<Vec<CommandOptionChoice>>) -> (r:
    bool)
    ensures
        r == (norm_choices_of(*a) == norm_choices_of(*b)),
{
    let la: usize = match a {
        Option::Some(v) => v.len(),
        Option::None => 0,
    };
    let lb: usize = match b {
        Option::Some(v) => v.len(),
        Option::None => 0,
    };
    proof {
        lemma_norm_choices_len(*a, la);
        lemma_norm_choices_len(*b, lb);
    }
    if la == 0 && lb == 0 {
        proof {
            assert(norm_choices_of(*a) =~= norm_choices_of(*b));
        }
        return true;
    }
    if la != lb {
        return false;
    }
    match (a, b) {
        (Option::Some(x), Option::Some(y)) => {
            let pa = sorted_choice_idx(x);
            let pb = sorted_choice_idx(y);
            let ghost sa = choices_norm(choices_view(x@));
            let ghost sb = choices_norm(choices_view(y@));
            proof {
                assert(norm_choices_of(*a) == sa);
                assert(norm_choices_of(*b) == sb);
            }
            let mut k: usize = 0;
            while k < la
                invariant
                    la == x@.len() == y@.len(),
                    pa@.len() == la,
                    pb@.len() == la,
                    forall|m: int| 0 <= m < la ==> 0 <= #[trigger] pa@[m] < la,
                    forall|m: int| 0 <= m < la ==> 0 <= #[trigger] pb@[m] < la,
                    sa == choices_norm(choices_view(x@)),
                    sb == choices_norm(choices_view(y@)),
                    sa == norm_choices_of(*a),
                    sb == norm_choices_of(*b),
                    sa == choice_idx_map(pa@, x@),
                    sb == choice_idx_map(pb@, y@),
                    sa.len() == la,
                    sb.len() == la,
                    0 <= k <= la,
                    forall|m: int| 0 <= m < k ==> sa[m] == sb[m],
                decreases la - k,
            {
                let e = cmd_opt_choice_eq(&x[pa[k]], &y[pb[k]]);
                if !e {
                    proof {
                        assert(sa[k as int] != sb[k as int]);
                    }
                    return false;
                }
                k = k + 1;
            }
            proof {
                assert(sa =~= sb);
            }
            true
        },
        _ => {
            proof {
                assert(false);
            }
            true
        },
    }
}

proof fn lemma_norm_choices_len(a: Option<Vec<CommandOptionChoice>>, la: usize)
    requires
        match a {
            Option::Some(v) => la == v@.len(),
            Option::None => la == 0,
        },
    ensures
        norm_choices_of(a).len() == la,
{
    match a {
        Option::Some(v) => {
            lemma_sort_by_st_len(choices_norm_raw(choices_view(v@)), choice_name_le());
        },
        Option::None => {},
    }
}

/// What the index permutation `p` selects out of `v`, normalized.
pub open spec fn opt_idx_map(p: Seq<usize>, v: Seq<CommandOption>) -> Seq<OptN> {
    Seq::new(p.len(), |k: int| opt_norm(opt_view(v[p[k] as int])))
}

fn sorted_opt_idx(v: &Vec<CommandOption>) -> (p: Vec<usize>)
    ensures
        p@.len() == v@.len(),
        forall|k: int| 0 <= k < p@.len() ==> 0 <= #[trigger] p@[k] < v@.len(),
        opt_idx_map(p@, v@) == sort_by_st(opts_norm_raw(opts_view(v@)), opt_name_le()),
{
    let ghost ov = opts_view(v@);
    proof {
        lemma_opts_view_len(v@);
    }
    let mut p: Vec<usize> = Vec::new();
    let mut j: usize = 0;
    while j < v.len()
        invariant
            0 <= j <= v@.len(),
            ov == opts_view(v@),
            ov.len() == v@.len(),
            p@.len() == j,
            forall|k: int| 0 <= k < p@.len() ==> 0 <= #[trigger] p@[k] < v@.len(),
            opt_idx_map(p@, v@) == sort_by_st(opts_norm_raw(ov.take(j as int)), opt_name_le()),
        decreases v@.len() - j,
    {
        let ghost t = opt_idx_map(p@, v@);
        let ghost x = opt_norm(opt_view(v@[j as int]));
        proof {
            lemma_opts_view_index(v@, j as int);
            assert forall|k: int| 0 <= k < p@.len() implies t[k] == opt_norm(
                opt_view(v@[p@[k] as int]),
            ) by {}
        }
        let mut pos: usize = p.len();
        loop
            invariant
                0 <= pos <= p@.len(),
                p@.len() == j <= v@.len(),
                forall|k: int| 0 <= k < p@.len() ==> 0 <= #[trigger] p@[k] < v@.len(),
                t == opt_idx_map(p@, v@),
                x == opt_norm(opt_view(v@[j as int])),
                j < v@.len(),
                forall|m: int| pos <= m < t.len() ==> !opt_name_le()(#[trigger] t[m], x),
            ensures
                0 <= pos <= t.len(),
                forall|m: int| pos <= m < t.len() ==> !opt_name_le()(#[trigger] t[m], x),
                pos > 0 ==> opt_name_le()(t[pos - 1], x),
            decreases pos,
        {
            if pos == 0 {
                break;
            }
            let le = str_le_exec(v[p[pos - 1]].name.as_str(), v[j].name.as_str());
            if le {
                break;
            }
            pos = pos - 1;
        }
        proof {
            lemma_insert_by_split(t, x, opt_name_le(), pos as int);
        }
        p.insert(pos, j);
        proof {
            assert(opt_idx_map(p@, v@) =~= t.take(pos as int) + seq![x] + t.skip(pos as int));
            lemma_opts_norm_raw_push(ov.take(j as int), ov[j as int]);
            assert(ov.take(j as int).push(ov[j as int]) =~= ov.take(j + 1));
            lemma_sort_by_st_push(opts_norm_raw(ov.take(j as int)), x, opt_name_le());
        }
        j = j + 1;
    }
    proof {
        assert(ov.take(ov.len() as int) =~= ov);
    }
    p
}

/// The canonical option list of a full option vector.
pub open spec fn opts_full_norm(s: Seq<CommandOption>) -> Seq<OptN> {
    sort_by_st(opts_norm_raw(opts_view(s)), opt_name_le())
}

/// The canonical option list of an optional option vector; absence
/// counts as empty.
pub open spec fn norm_options_of(a: Option<Vec<CommandOption>>) -> Seq<OptN> {
    match a {
        Option::None => Seq::empty(),
        Option::Some(v) => opts_full_norm(v@),
    }
}

proof fn lemma_opts_full_norm_len(s: Seq<CommandOption>)
    ensures
        opts_full_norm(s).len() == s.len(),
{
    lemma_opts_view_len(s);
    lemma_opts_norm_raw_len(opts_view(s));
    lemma_sort_by_st_len(opts_norm_raw(opts_view(s)), opt_name_le());
}

fn options_eq(a: &Vec<CommandOption>, b: &Vec<CommandOption>) -> (r: bool)
    ensures
        r == (opts_full_norm(a@) == opts_full_norm(b@)),
    decreases a@,
{
    proof {
        lemma_opts_full_norm_len(a@);
        lemma_opts_full_norm_len(b@);
    }
    if a.len() != b.len() {
        return false;
    }
    let n = a.len();
    let pa = sorted_opt_idx(a);
    let pb = sorted_opt_idx(b);
    let ghost sa = opts_full_norm(a@);
    let ghost sb = opts_full_norm(b@);
    let mut k: usize = 0;
    while k < n
        invariant
            n == a@.len() == b@.len(),
            pa@.len() == n,
            pb@.len() == n,
            forall|m: int| 0 <= m < n ==> 0 <= #[trigger] pa@[m] < n,
            forall|m: int| 0 <= m < n ==> 0 <= #[trigger] pb@[m] < n,
            sa == opts_full_norm(a@),
            sb == opts_full_norm(b@),
            sa == opt_idx_map(pa@, a@),
            sb == opt_idx_map(pb@, b@),
            sa.len() == n,
            sb.len() == n,
            0 <= k <= n,
            forall|m: int| 0 <= m < k ==> sa[m] == sb[m],
        decreases n - k,
    {
        let e = cmd_opt_eq(&a[pa[k]], &b[pb[k]]);
        if !e {
            proof {
                assert(sa[k as int] != sb[k as int]);
            }
            return false;
        }
        k = k + 1;
    }
    proof {
        assert(sa =~= sb);
    }
    true
}

fn opt_options_eq(a: &Option<Vec<CommandOption>>, b: &Option<Vec<CommandOption>>) -> (r: bool)
    ensures
        r == (norm_options_of(*a) == norm_options_of(*b)),
    decreases *a,
{
    let la: usize = match a {
        Option::Some(v) => v.len(),
        Option::None => 0,
    };
    let lb: usize = match b {
        Option::Some(v) => v.len(),
        Option::None => 0,
    };
    proof {
        match a {
            Option::Some(v) => lemma_opts_full_norm_len(v@),
            Option::None => {},
        }
        match b {
            Option::Some(v) => lemma_opts_full_norm_len(v@),
            Option::None => {},
        }
    }
    if la == 0 && lb == 0 {
        proof {
            assert(norm_options_of(*a) =~= norm_options_of(*b));
        }
        return true;
    }
    if la != lb {
        return false;
    }
    match (a, b) {
        (Option::Some(x), Option::Some(y)) => {
            proof {
                assert(norm_options_of(*a) == opts_full_norm(x@));
                assert(norm_options_of(*b) == opts_full_norm(y@));
            }
            options_eq(x, y)
        },
        _ => {
            proof {
                assert(false);
            }
            true
        },
    }
}

/// Decides structural equality of two options: equality of their
/// canonical forms.
pub fn cmd_opt_eq(a: &CommandOption, b: &CommandOption) -> (r: bool)
    ensures
        r == (opt_norm(opt_view(*a)) == opt_norm(opt_view(*b))),
    decreases *a,
{
    if !(a.name == b.name) {
        return false;
    }
    if !(a.kind == b.kind) {
        return false;
    }
    if !(a.description == b.description) {
        return false;
    }
    if !localizations_eq(a.name_localizations.as_ref(), b.name_localizations.as_ref()) {
        return false;
    }
    if !localizations_eq(
        a.description_localizations.as_ref(),
        b.description_localizations.as_ref(),
    ) {
        return false;
    }
    if !flag_eq(a.required, b.required) {
        return false;
    }
    if !flag_eq(a.autocomplete, b.autocomplete) {
        return false;
    }
    if !opt_u16_eq(a.min_length, b.min_length) {
        return false;
    }
    if !opt_u16_eq(a.max_length, b.max_length) {
        return false;
    }
    if !num_eq(a.min_value, b.min_value) {
        return false;
    }
    if !num_eq(a.max_value, b.max_value) {
        return false;
    }
    if !channel_types_eq(&a.channel_types, &b.channel_types) {
        return false;
    }
    if !choices_eq(&a.choices, &b.choices) {
        return false;
    }
    opt_options_eq(&a.options, &b.options)
}

/// Decides structural equality of two command definitions: equality of
/// their canonical forms. The remote identifier takes no part in it.
pub fn command_eq(a: &CommandDefinition, b: &CommandDefinition) -> (r: bool)
    ensures
        r == cmd_equiv(cmd_view(*a), cmd_view(*b)),
{
    if !(a.name == b.name) {
        return false;
    }
    if !(a.kind == b.kind) {
        return false;
    }
    if !(a.description == b.description) {
        return false;
    }
    if !opt_u64_eq(a.default_member_permissions, b.default_member_permissions) {
        return false;
    }
    if !flag_eq(a.dm_allowed, b.dm_allowed) {
        return false;
    }
    if !flag_eq(a.nsfw, b.nsfw) {
        return false;
    }
    if !localizations_eq(a.name_localizations.as_ref(), b.name_localizations.as_ref()) {
        return false;
    }
    if !localizations_eq(
        a.description_localizations.as_ref(),
        b.description_localizations.as_ref(),
    ) {
        return false;
    }
    options_eq(&a.options, &b.options)
}

} // verus!
