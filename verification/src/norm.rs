//! Canonical forms of command definitions.
//!
//! Two definitions are structurally equal exactly when their canonical
//! forms are equal values. Normalization substitutes the defaults for
//! absent optional fields (`false` for flags, the empty map for
//! localizations, the empty list for nested collections) and sorts every
//! collection whose order carries no meaning: options and choices by
//! name, channel types numerically. The remote identifier is not part of
//! the canonical form: equality never depends on it.
use vstd::prelude::*;

use crate::data::ChoiceV;
use crate::data::ChoiceValueV;
use crate::data::CmdV;
use crate::data::CommandKind;
use crate::data::LocPairs;
use crate::data::NumericValue;
use crate::data::OptV;
use crate::data::OptionKind;
use crate::lex::str_le;
use crate::sorting::le_u8;
use crate::sorting::sort_by_st;

verus! {

/// Canonical form of a choice.
pub ghost struct ChoiceN {
    pub name: Seq<char>,
    pub name_loc: LocPairs,
    pub value: ChoiceValueV,
}

/// Canonical form of an option.
pub ghost struct OptN {
    pub name: Seq<char>,
    pub kind: OptionKind,
    pub description: Seq<char>,
    pub name_loc: LocPairs,
    pub desc_loc: LocPairs,
    pub required: bool,
    pub autocomplete: bool,
    pub min_length: Option<u16>,
    pub max_length: Option<u16>,
    pub min_value: Option<NumericValue>,
    pub max_value: Option<NumericValue>,
    pub channel_types: Seq<u8>,
    pub choices: Seq<ChoiceN>,
    pub options: Seq<OptN>,
}

/// Canonical form of a command definition. It has no identifier field:
/// structural equality ignores the remote identifier.
pub ghost struct CmdN {
    pub name: Seq<char>,
    pub kind: CommandKind,
    pub description: Seq<char>,
    pub permissions: Option<u64>,
    pub dm_allowed: bool,
    pub nsfw: bool,
    pub name_loc: LocPairs,
    pub desc_loc: LocPairs,
    pub options: Seq<OptN>,
}

/// An absent flag counts as `false`.
pub open spec fn flag_norm(f: Option<bool>) -> bool {
    f == Option::<bool>::Some(true)
}

/// An absent localization map counts as the empty map.
pub open spec fn loc_norm(l: Option<LocPairs>) -> LocPairs {
    match l {
        Option::None => Seq::empty(),
        Option::Some(s) => s,
    }
}

/// An absent channel-type list counts as empty.
pub open spec fn ct_norm(c: Option<Seq<u8>>) -> Seq<u8> {
    match c {
        Option::None => Seq::empty(),
        Option::Some(s) => s,
    }
}

/// Options ordered by name.
pub open spec fn opt_name_le() -> spec_fn(OptN, OptN) -> bool {
    |x: OptN, y: OptN| str_le(x.name, y.name)
}

/// Choices ordered by name.
pub open spec fn choice_name_le() -> spec_fn(ChoiceN, ChoiceN) -> bool {
    |x: ChoiceN, y: ChoiceN| str_le(x.name, y.name)
}

pub open spec fn choice_norm(c: ChoiceV) -> ChoiceN {
    ChoiceN { name: c.name, name_loc: loc_norm(c.name_localizations), value: c.value }
}

/// The choices normalized one by one, still in their given order.
pub open spec fn choices_norm_raw(s: Seq<ChoiceV>) -> Seq<ChoiceN> {
    s.map_values(|c: ChoiceV| choice_norm(c))
}

/// The canonical choice list: normalized, then sorted by name.
pub open spec fn choices_norm(s: Seq<ChoiceV>) -> Seq<ChoiceN> {
    sort_by_st(choices_norm_raw(s), choice_name_le())
}

pub open spec fn opt_norm(o: OptV) -> OptN
    decreases o,
{
    OptN {
        name: o.name,
        kind: o.kind,
        description: o.description,
        name_loc: loc_norm(o.name_localizations),
        desc_loc: loc_norm(o.description_localizations),
        required: flag_norm(o.required),
        autocomplete: flag_norm(o.autocomplete),
        min_length: o.min_length,
        max_length: o.max_length,
        min_value: o.min_value,
        max_value: o.max_value,
        channel_types: sort_by_st(ct_norm(o.channel_types), le_u8()),
        choices: match o.choices {
            Option::None => Seq::empty(),
            Option::Some(s) => choices_norm(s),
        },
        options: match o.options {
            Option::None => Seq::empty(),
            Option::Some(s) => sort_by_st(opts_norm_raw(s), opt_name_le()),
        },
    }
}

/// The options normalized one by one, still in their given order.
pub open spec fn opts_norm_raw(s: Seq<OptV>) -> Seq<OptN>
    decreases s,
{
    if s.len() == 0 {
        Seq::empty()
    } else {
        opts_norm_raw(s.drop_last()).push(opt_norm(s.last()))
    }
}

/// The canonical option list: normalized, then sorted by name.
pub open spec fn opts_norm(s: Seq<OptV>) -> Seq<OptN> {
    sort_by_st(opts_norm_raw(s), opt_name_le())
}

pub open spec fn cmd_norm(c: CmdV) -> CmdN {
    CmdN {
        name: c.name,
        kind: c.kind,
        description: c.description,
        permissions: c.default_member_permissions,
        dm_allowed: flag_norm(c.dm_allowed),
        nsfw: flag_norm(c.nsfw),
        name_loc: loc_norm(c.name_localizations),
        desc_loc: loc_norm(c.description_localizations),
        options: opts_norm(c.options),
    }
}

/// Structural equality of two command definitions: equality of their
/// canonical forms.
pub open spec fn cmd_equiv(a: CmdV, b: CmdV) -> bool {
    cmd_norm(a) == cmd_norm(b)
}

pub proof fn lemma_opts_norm_raw_len(s: Seq<OptV>)
    ensures
        opts_norm_raw(s).len() == s.len(),
    decreases s,
{
    if s.len() > 0 {
        lemma_opts_norm_raw_len(s.drop_last());
    }
}

pub proof fn lemma_opts_norm_raw_index(s: Seq<OptV>, i: int)
    requires
        0 <= i < s.len(),
    ensures
        opts_norm_raw(s).len() == s.len(),
        opts_norm_raw(s)[i] == opt_norm(s[i]),
    decreases s,
{
    lemma_opts_norm_raw_len(s);
    if i < s.len() - 1 {
        lemma_opts_norm_raw_index(s.drop_last(), i);
    } else {
        lemma_opts_norm_raw_len(s.drop_last());
    }
}

pub proof fn lemma_opts_norm_raw_push(s: Seq<OptV>, x: OptV)
    ensures
        opts_norm_raw(s.push(x)) == opts_norm_raw(s).push(opt_norm(x)),
{
    assert(s.push(x).drop_last() =~= s);
    assert(s.push(x).last() == x);
    assert(s.push(x).len() == s.len() + 1);
}

} // verus!
