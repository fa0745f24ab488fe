//! The command schema: definitions, options, choices, localization maps,
//! and their mathematical views.
//!
//! Every executable type here has a ghost view capturing its full content;
//! the reconciler's and the equality engine's contracts are stated over
//! those views.
use vstd::prelude::*;

use crate::lex::str_le;
use crate::lex::str_le_exec;

verus! {

/// What a command is invoked as: a chat-input command or a context-menu
/// action on a user or a message.
#[derive(Clone, Copy, PartialEq, Eq, Structural, Debug)]
pub enum CommandKind {
    ChatInput,
    User,
    Message,
}

/// The type of a command option's value, or a sub-command (group) marker.
#[derive(Clone, Copy, PartialEq, Eq, Structural, Debug)]
pub enum OptionKind {
    SubCommand,
    SubCommandGroup,
    Text,
    Integer,
    Boolean,
    UserRef,
    Channel,
    Role,
    Mentionable,
    Number,
    Attachment,
}

/// A numeric bound of an option: an integer, or a floating-point number
/// carried by its IEEE 754 bit pattern. Bounds are compared exactly, bit
/// for bit; no tolerance is applied.
#[derive(Clone, Copy, PartialEq, Eq, Structural, Debug)]
pub enum NumericValue {
    Int(i64),
    NumBits(u64),
}

/// The fixed value a choice offers: a string, an integer, or a
/// floating-point number carried by its bit pattern.
#[derive(PartialEq, Eq, Debug)]
pub enum ChoiceValue {
    Text(String),
    Int(i64),
    NumBits(u64),
}

/// Ghost image of a [`ChoiceValue`].
pub ghost enum ChoiceValueV {
    Text(Seq<char>),
    Int(i64),
    NumBits(u64),
}

/// The view of a localization map: its entries as (locale, text) pairs,
/// in the map's canonical order.
pub type LocPairs = Seq<(Seq<char>, Seq<char>)>;

/// Per-locale string overrides for a name or a description.
///
/// The entries are kept sorted strictly ascending by locale, so two maps
/// holding the same locale-to-text association are equal values: a map
/// has one canonical representation however it was built.
#[derive(PartialEq, Eq, Debug)]
pub struct LocaleMap {
    entries: Vec<(String, String)>,
}

/// Inserts the pair into a locale-sorted entry list: an existing entry
/// under the same locale is replaced, otherwise the pair lands at its
/// ordered position.
pub open spec fn loc_insert(s: LocPairs, k: Seq<char>, v: Seq<char>) -> LocPairs
    decreases s.len(),
{
    if s.len() == 0 {
        seq![(k, v)]
    } else if s.last().0 == k {
        s.drop_last().push((k, v))
    } else if str_le(s.last().0, k) {
        s.push((k, v))
    } else {
        loc_insert(s.drop_last(), k, v).push(s.last())
    }
}

/// Entries sorted strictly ascending by locale.
pub open spec fn loc_sorted(s: LocPairs) -> bool {
    forall|i: int, j: int|
        0 <= i < j < s.len() ==> str_le(#[trigger] s[i].0, #[trigger] s[j].0) && s[i].0 != s[j].0
}

proof fn lemma_loc_insert_split(s: LocPairs, k: Seq<char>, v: Seq<char>, pos: int)
    requires
        0 <= pos <= s.len(),
        forall|m: int| pos <= m < s.len() ==> (#[trigger] s[m].0) != k && !str_le(s[m].0, k),
    ensures
        pos > 0 && s[pos - 1].0 == k ==> loc_insert(s, k, v) == s.take(pos - 1) + seq![(k, v)]
            + s.skip(pos),
        !(pos > 0 && s[pos - 1].0 == k) && (pos == 0 || str_le(s[pos - 1].0, k)) ==> loc_insert(
            s,
            k,
            v,
        ) == s.take(pos) + seq![(k, v)] + s.skip(pos),
    decreases s.len(),
{
    if s.len() == 0 {
        assert(loc_insert(s, k, v) =~= s.take(pos) + seq![(k, v)] + s.skip(pos));
    } else if pos == s.len() {
        if s.last().0 == k {
            assert(loc_insert(s, k, v) =~= s.take(pos - 1) + seq![(k, v)] + s.skip(pos));
        } else if str_le(s.last().0, k) {
            assert(loc_insert(s, k, v) =~= s.take(pos) + seq![(k, v)] + s.skip(pos));
        }
    } else {
        assert(s[s.len() - 1].0 != k && !str_le(s[s.len() - 1].0, k));
        lemma_loc_insert_split(s.drop_last(), k, v, pos);
        if pos > 0 && s[pos - 1].0 == k {
            assert(loc_insert(s, k, v) =~= s.take(pos - 1) + seq![(k, v)] + s.skip(pos));
        } else if pos == 0 || str_le(s[pos - 1].0, k) {
            assert(loc_insert(s, k, v) =~= s.take(pos) + seq![(k, v)] + s.skip(pos));
        }
    }
}

/// The map a (locale, text) entry list denotes; a later entry under the
/// same locale overrides an earlier one.
pub open spec fn as_map(s: LocPairs) -> Map<Seq<char>, Seq<char>>
    decreases s.len(),
{
    if s.len() == 0 {
        Map::empty()
    } else {
        as_map(s.drop_last()).insert(s.last().0, s.last().1)
    }
}

proof fn lemma_as_map_dom(s: LocPairs, k: Seq<char>)
    ensures
        as_map(s).dom().contains(k) == exists|i: int| 0 <= i < s.len() && (#[trigger] s[i]).0 == k,
    decreases s.len(),
{
    if s.len() > 0 {
        lemma_as_map_dom(s.drop_last(), k);
        if s.last().0 == k {
            assert(s[s.len() - 1].0 == k);
        } else if exists|i: int| 0 <= i < s.drop_last().len() && (#[trigger] s.drop_last()[i]).0
            == k {
            let i = choose|i: int|
                0 <= i < s.drop_last().len() && (#[trigger] s.drop_last()[i]).0 == k;
            assert(s[i].0 == k);
        } else if exists|i: int| 0 <= i < s.len() && (#[trigger] s[i]).0 == k {
            let i = choose|i: int| 0 <= i < s.len() && (#[trigger] s[i]).0 == k;
            assert(i < s.len() - 1);
            assert(s.drop_last()[i].0 == k);
        }
    }
}

/// Inserting an entry into an entry list denotes exactly a map insert.
pub proof fn lemma_loc_insert_as_map(s: LocPairs, k: Seq<char>, v: Seq<char>)
    ensures
        as_map(loc_insert(s, k, v)) == as_map(s).insert(k, v),
    decreases s.len(),
{
    if s.len() == 0 {
        assert(seq![(k, v)].drop_last() =~= Seq::<(Seq<char>, Seq<char>)>::empty());
        assert(seq![(k, v)].last() == (k, v));
        assert(as_map(loc_insert(s, k, v)) == as_map(
            Seq::<(Seq<char>, Seq<char>)>::empty(),
        ).insert(k, v));
        assert(as_map(loc_insert(s, k, v)) =~= as_map(s).insert(k, v));
    } else if s.last().0 == k {
        let q = s.drop_last();
        assert(q.push((k, v)).drop_last() =~= q);
        assert(q.push((k, v)).last() == (k, v));
        assert(as_map(loc_insert(s, k, v)) == as_map(q).insert(k, v));
        assert(as_map(s) == as_map(q).insert(k, s.last().1));
        assert(as_map(loc_insert(s, k, v)) =~= as_map(s).insert(k, v));
    } else if str_le(s.last().0, k) {
        assert(s.push((k, v)).drop_last() =~= s);
        assert(s.push((k, v)).last() == (k, v));
    } else {
        lemma_loc_insert_as_map(s.drop_last(), k, v);
        let r = loc_insert(s.drop_last(), k, v);
        assert(r.push(s.last()).drop_last() =~= r);
        assert(r.push(s.last()).last() == s.last());
        assert(as_map(loc_insert(s, k, v)) == as_map(r).insert(s.last().0, s.last().1));
        assert(as_map(s) == as_map(s.drop_last()).insert(s.last().0, s.last().1));
        assert(as_map(r).insert(s.last().0, s.last().1) =~= as_map(s).insert(k, v));
    }
}

/// An entry list in canonical order is determined by the map it
/// denotes: two sorted lists denoting the same map are equal.
pub proof fn lemma_sorted_entries_canonical(s1: LocPairs, s2: LocPairs)
    requires
        loc_sorted(s1),
        loc_sorted(s2),
        as_map(s1) == as_map(s2),
    ensures
        s1 == s2,
    decreases s1.len(),
{
    if s1.len() == 0 {
        if s2.len() > 0 {
            lemma_as_map_dom(s1, s2.last().0);
            lemma_as_map_dom(s2, s2.last().0);
            assert(s2[s2.len() - 1].0 == s2.last().0);
            assert(false);
        }
        assert(s1 =~= s2);
    } else if s2.len() == 0 {
        lemma_as_map_dom(s1, s1.last().0);
        lemma_as_map_dom(s2, s1.last().0);
        assert(s1[s1.len() - 1].0 == s1.last().0);
        assert(false);
    } else {
        let k1 = s1.last().0;
        let k2 = s2.last().0;
        if k1 != k2 {
            lemma_as_map_dom(s1, k2);
            lemma_as_map_dom(s2, k2);
            assert(s2[s2.len() - 1].0 == k2);
            let i1 = choose|i: int| 0 <= i < s1.len() && (#[trigger] s1[i]).0 == k2;
            assert(i1 < s1.len() - 1);
            assert(str_le(s1[i1].0, s1[s1.len() - 1].0));
            assert(str_le(k2, k1));
            lemma_as_map_dom(s1, k1);
            lemma_as_map_dom(s2, k1);
            assert(s1[s1.len() - 1].0 == k1);
            let i2 = choose|i: int| 0 <= i < s2.len() && (#[trigger] s2[i]).0 == k1;
            assert(i2 < s2.len() - 1);
            assert(str_le(s2[i2].0, s2[s2.len() - 1].0));
            assert(str_le(k1, k2));
            crate::lex::lemma_str_le_antisym(k1, k2);
            assert(false);
        }
        assert(as_map(s1)[k1] == s1.last().1);
        assert(as_map(s2)[k1] == s2.last().1);
        assert(s1.last() == s2.last());
        let t1 = s1.drop_last();
        let t2 = s2.drop_last();
        lemma_as_map_dom(t1, k1);
        assert(forall|i: int| 0 <= i < t1.len() ==> (#[trigger] t1[i]).0 != k1 && t1[i] == s1[i]);
        assert(as_map(t1) =~= as_map(s1).remove(k1));
        lemma_as_map_dom(t2, k1);
        assert(forall|i: int| 0 <= i < t2.len() ==> (#[trigger] t2[i]).0 != k1 && t2[i] == s2[i]);
        assert(as_map(t2) =~= as_map(s2).remove(k1));
        lemma_sorted_entries_canonical(t1, t2);
        assert(t1.push(s1.last()) =~= s1);
        assert(t2.push(s2.last()) =~= s2);
        assert(s1 =~= s2);
    }
}

impl View for LocaleMap {
    type V = LocPairs;

    closed spec fn view(&self) -> LocPairs {
        self.entries@.map_values(|p: (String, String)| (p.0@, p.1@))
    }
}

impl Clone for LocaleMap {
    /// A clone carries the same association.
    fn clone(&self) -> (r: Self)
        ensures
            r@ == self@,
    {
        let mut v: Vec<(String, String)> = Vec::new();
        let mut i: usize = 0;
        while i < self.entries.len()
            invariant
                0 <= i <= self.entries.len(),
                v@.len() == i,
                forall|j: int| 0 <= j < i ==> v@[j] == self.entries@[j],
            decreases self.entries.len() - i,
        {
            let p = &self.entries[i];
            v.push((p.0.clone(), p.1.clone()));
            i = i + 1;
        }
        proof {
            use_type_invariant(&*self);
            assert(v@ =~= self.entries@);
        }
        LocaleMap { entries: v }
    }
}

impl LocaleMap {
    /// Every localization map value keeps its entries sorted strictly
    /// ascending by locale: the canonical representation of the map it
    /// denotes.
    #[verifier::type_invariant]
    pub open spec fn well_formed(self) -> bool {
        loc_sorted(self@)
    }

    /// The empty map.
    pub fn new() -> (r: Self)
        ensures
            r@ == Seq::<(Seq<char>, Seq<char>)>::empty(),
    {
        LocaleMap { entries: Vec::new() }
    }

    /// Whether the map holds no entry.
    pub fn is_empty(&self) -> (r: bool)
        ensures
            r == (self@.len() == 0),
    {
        self.entries.len() == 0
    }

    /// The number of entries.
    pub fn len(&self) -> (r: usize)
        ensures
            r == self@.len(),
    {
        self.entries.len()
    }

    /// Read access to the entries, in canonical order.
    pub fn entries(&self) -> (r: &Vec<(String, String)>)
        ensures
            r@.map_values(|p: (String, String)| (p.0@, p.1@)) == self@,
    {
        &self.entries
    }

    /// Whether the two maps hold the same association.
    pub fn same_as(&self, other: &LocaleMap) -> (r: bool)
        ensures
            r == (self@ == other@),
    {
        if self.entries.len() != other.entries.len() {
            proof {
                assert(self@.len() == self.entries@.len());
                assert(other@.len() == other.entries@.len());
            }
            return false;
        }
        let mut i: usize = 0;
        while i < self.entries.len()
            invariant
                self.entries@.len() == other.entries@.len(),
                0 <= i <= self.entries@.len(),
                forall|j: int| 0 <= j < i ==> self@[j] == other@[j],
            decreases self.entries@.len() - i,
        {
            let p = &self.entries[i];
            let q = &other.entries[i];
            if !(p.0 == q.0) {
                proof {
                    assert(self@[i as int] != other@[i as int]);
                }
                return false;
            }
            if !(p.1 == q.1) {
                proof {
                    assert(self@[i as int] != other@[i as int]);
                }
                return false;
            }
            i = i + 1;
        }
        proof {
            assert(self@ =~= other@);
        }
        true
    }

    /// Sets the text for a locale, replacing an earlier entry under the
    /// same locale.
    pub fn insert(&mut self, locale: String, text: String)
        ensures
            final(self)@ == loc_insert(old(self)@, locale@, text@),
            as_map(final(self)@) == as_map(old(self)@).insert(locale@, text@),
    {
        proof {
            use_type_invariant(&*self);
        }
        let ghost sv: LocPairs = self@;
        let mut es: Vec<(String, String)> = Vec::new();
        std::mem::swap(&mut es, &mut self.entries);
        proof {
            assert(self@ =~= Seq::<(Seq<char>, Seq<char>)>::empty());
            assert(es@.map_values(|p: (String, String)| (p.0@, p.1@)) == sv);
        }
        let mut pos: usize = es.len();
        loop
            invariant
                0 <= pos <= es.len(),
                sv == es@.map_values(|p: (String, String)| (p.0@, p.1@)),
                sv.len() == es.len(),
                forall|m: int| pos <= m < sv.len() ==> (#[trigger] sv[m].0) != locale@ && !str_le(
                    sv[m].0,
                    locale@,
                ),
            ensures
                0 <= pos <= sv.len(),
                sv == es@.map_values(|p: (String, String)| (p.0@, p.1@)),
                sv.len() == es.len(),
                forall|m: int| pos <= m < sv.len() ==> (#[trigger] sv[m].0) != locale@ && !str_le(
                    sv[m].0,
                    locale@,
                ),
                pos > 0 ==> (sv[pos - 1].0 == locale@ || str_le(sv[pos - 1].0, locale@)),
            decreases pos,
        {
            if pos == 0 {
                break;
            }
            let same = es[pos - 1].0 == locale;
            if same {
                break;
            }
            let le = str_le_exec(es[pos - 1].0.as_str(), locale.as_str());
            if le {
                break;
            }
            pos = pos - 1;
        }
        proof {
            lemma_loc_insert_split(sv, locale@, text@, pos as int);
        }
        let ghost nv: LocPairs;
        if pos > 0 && es[pos - 1].0 == locale {
            es.remove(pos - 1);
            es.insert(pos - 1, (locale, text));
            proof {
                nv = sv.take(pos - 1) + seq![(locale@, text@)] + sv.skip(pos as int);
                assert(es@.map_values(|p: (String, String)| (p.0@, p.1@)) =~= nv);
                lemma_replace_sorted(sv, locale@, text@, pos as int);
            }
        } else {
            es.insert(pos, (locale, text));
            proof {
                nv = sv.take(pos as int) + seq![(locale@, text@)] + sv.skip(pos as int);
                assert(es@.map_values(|p: (String, String)| (p.0@, p.1@)) =~= nv);
                lemma_put_sorted(sv, locale@, text@, pos as int);
            }
        }
        std::mem::swap(&mut es, &mut self.entries);
        proof {
            assert(self@ == nv);
            lemma_loc_insert_as_map(sv, locale@, text@);
        }
    }
}

proof fn lemma_replace_sorted(sv: LocPairs, k: Seq<char>, v: Seq<char>, pos: int)
    requires
        loc_sorted(sv),
        0 < pos <= sv.len(),
        sv[pos - 1].0 == k,
        forall|m: int| pos <= m < sv.len() ==> (#[trigger] sv[m].0) != k && !str_le(sv[m].0, k),
    ensures
        loc_sorted(sv.take(pos - 1) + seq![(k, v)] + sv.skip(pos)),
{
    let nv = sv.take(pos - 1) + seq![(k, v)] + sv.skip(pos);
    assert forall|i: int, j: int| 0 <= i < j < nv.len() implies str_le(
        (#[trigger] nv[i]).0,
        (#[trigger] nv[j]).0,
    ) && nv[i].0 != nv[j].0 by {
        if i < pos - 1 && j == pos - 1 {
            assert(nv[i] == sv[i]);
            assert(str_le(sv[i].0, sv[pos - 1].0) && sv[i].0 != sv[pos - 1].0);
        } else if i < pos - 1 && j > pos - 1 {
            assert(nv[i] == sv[i]);
            assert(nv[j] == sv[j]);
        } else if i == pos - 1 && j > pos - 1 {
            assert(nv[j] == sv[j]);
            assert(str_le(sv[pos - 1].0, sv[j].0) && sv[pos - 1].0 != sv[j].0);
        } else {
            assert(nv[i] == sv[i]);
            assert(nv[j] == sv[j]);
        }
    }
}

proof fn lemma_put_sorted(sv: LocPairs, k: Seq<char>, v: Seq<char>, pos: int)
    requires
        loc_sorted(sv),
        0 <= pos <= sv.len(),
        pos > 0 ==> str_le(sv[pos - 1].0, k) && sv[pos - 1].0 != k,
        forall|m: int| pos <= m < sv.len() ==> (#[trigger] sv[m].0) != k && !str_le(sv[m].0, k),
    ensures
        loc_sorted(sv.take(pos) + seq![(k, v)] + sv.skip(pos)),
{
    let nv = sv.take(pos) + seq![(k, v)] + sv.skip(pos);
    assert forall|i: int, j: int| 0 <= i < j < nv.len() implies str_le(
        (#[trigger] nv[i]).0,
        (#[trigger] nv[j]).0,
    ) && nv[i].0 != nv[j].0 by {
        if i < pos && j == pos {
            assert(nv[i] == sv[i]);
            if i < pos - 1 {
                assert(str_le(sv[i].0, sv[pos - 1].0));
                crate::lex::lemma_str_le_trans(sv[i].0, sv[pos - 1].0, k);
            }
            assert(str_le(sv[i].0, k));
            if sv[i].0 == k {
                assert(str_le(sv[pos - 1].0, sv[i].0));
                crate::lex::lemma_str_le_antisym(sv[i].0, sv[pos - 1].0);
                assert(false);
            }
        } else if i < pos && j > pos {
            assert(nv[i] == sv[i]);
            assert(nv[j] == sv[j - 1]);
        } else if i == pos && j > pos {
            assert(nv[j] == sv[j - 1]);
            assert(!str_le(sv[j - 1].0, k));
            crate::lex::lemma_str_le_total(k, sv[j - 1].0);
            assert(str_le(k, sv[j - 1].0));
        } else if i < pos && j < pos {
            assert(nv[i] == sv[i]);
            assert(nv[j] == sv[j]);
        } else {
            assert(nv[i] == sv[i - 1]);
            assert(nv[j] == sv[j - 1]);
        }
    }
}

/// One fixed selectable value offered for a text or number option.
#[derive(PartialEq, Eq, Debug)]
pub struct CommandOptionChoice {
    pub name: String,
    pub name_localizations: Option<LocaleMap>,
    pub value: ChoiceValue,
}

/// Ghost image of a [`CommandOptionChoice`].
pub ghost struct ChoiceV {
    pub name: Seq<char>,
    pub name_localizations: Option<LocPairs>,
    pub value: ChoiceValueV,
}

/// A parameter or sub-command nested within a command, recursively
/// structured.
#[derive(PartialEq, Eq, Debug)]
pub struct CommandOption {
    pub name: String,
    pub kind: OptionKind,
    pub description: String,
    pub name_localizations: Option<LocaleMap>,
    pub description_localizations: Option<LocaleMap>,
    pub required: Option<bool>,
    pub autocomplete: Option<bool>,
    pub min_length: Option<u16>,
    pub max_length: Option<u16>,
    pub min_value: Option<NumericValue>,
    pub max_value: Option<NumericValue>,
    pub channel_types: Option<Vec<u8>>,
    pub choices: Option<Vec<CommandOptionChoice>>,
    pub options: Option<Vec<CommandOption>>,
}

/// Ghost image of a [`CommandOption`].
pub ghost struct OptV {
    pub name: Seq<char>,
    pub kind: OptionKind,
    pub description: Seq<char>,
    pub name_localizations: Option<LocPairs>,
    pub description_localizations: Option<LocPairs>,
    pub required: Option<bool>,
    pub autocomplete: Option<bool>,
    pub min_length: Option<u16>,
    pub max_length: Option<u16>,
    pub min_value: Option<NumericValue>,
    pub max_value: Option<NumericValue>,
    pub channel_types: Option<Seq<u8>>,
    pub choices: Option<Seq<ChoiceV>>,
    pub options: Option<Seq<OptV>>,
}

/// A named, typed command definition, optionally carrying the remote
/// identifier the platform assigned when it was registered.
#[derive(PartialEq, Eq, Debug)]
pub struct CommandDefinition {
    pub id: Option<u64>,
    pub name: String,
    pub kind: CommandKind,
    pub description: String,
    pub default_member_permissions: Option<u64>,
    pub dm_allowed: Option<bool>,
    pub nsfw: Option<bool>,
    pub name_localizations: Option<LocaleMap>,
    pub description_localizations: Option<LocaleMap>,
    pub options: Vec<CommandOption>,
}

/// Ghost image of a [`CommandDefinition`].
pub ghost struct CmdV {
    pub id: Option<u64>,
    pub name: Seq<char>,
    pub kind: CommandKind,
    pub description: Seq<char>,
    pub default_member_permissions: Option<u64>,
    pub dm_allowed: Option<bool>,
    pub nsfw: Option<bool>,
    pub name_localizations: Option<LocPairs>,
    pub description_localizations: Option<LocPairs>,
    pub options: Seq<OptV>,
}

pub open spec fn loc_opt_view(l: Option<LocaleMap>) -> Option<LocPairs> {
    match l {
        Option::None => Option::None,
        Option::Some(m) => Option::Some(m@),
    }
}

pub open spec fn choice_value_view(v: ChoiceValue) -> ChoiceValueV {
    match v {
        ChoiceValue::Text(s) => ChoiceValueV::Text(s@),
        ChoiceValue::Int(i) => ChoiceValueV::Int(i),
        ChoiceValue::NumBits(b) => ChoiceValueV::NumBits(b),
    }
}

pub open spec fn choice_view(c: CommandOptionChoice) -> ChoiceV {
    ChoiceV {
        name: c.name@,
        name_localizations: loc_opt_view(c.name_localizations),
        value: choice_value_view(c.value),
    }
}

pub open spec fn choices_view(s: Seq<CommandOptionChoice>) -> Seq<ChoiceV> {
    s.map_values(|c: CommandOptionChoice| choice_view(c))
}

pub open spec fn opt_view(o: CommandOption) -> OptV
    decreases o,
{
    OptV {
        name: o.name@,
        kind: o.kind,
        description: o.description@,
        name_localizations: loc_opt_view(o.name_localizations),
        description_localizations: loc_opt_view(o.description_localizations),
        required: o.required,
        autocomplete: o.autocomplete,
        min_length: o.min_length,
        max_length: o.max_length,
        min_value: o.min_value,
        max_value: o.max_value,
        channel_types: match o.channel_types {
            Option::None => Option::None,
            Option::Some(v) => Option::Some(v@),
        },
        choices: match o.choices {
            Option::None => Option::None,
            Option::Some(v) => Option::Some(choices_view(v@)),
        },
        options: match o.options {
            Option::None => Option::None,
            Option::Some(v) => Option::Some(opts_view(v@)),
        },
    }
}

pub open spec fn opts_view(s: Seq<CommandOption>) -> Seq<OptV>
    decreases s,
{
    if s.len() == 0 {
        Seq::empty()
    } else {
        opts_view(s.drop_last()).push(opt_view(s.last()))
    }
}

pub open spec fn cmd_view(c: CommandDefinition) -> CmdV {
    CmdV {
        id: c.id,
        name: c.name@,
        kind: c.kind,
        description: c.description@,
        default_member_permissions: c.default_member_permissions,
        dm_allowed: c.dm_allowed,
        nsfw: c.nsfw,
        name_localizations: loc_opt_view(c.name_localizations),
        description_localizations: loc_opt_view(c.description_localizations),
        options: opts_view(c.options@),
    }
}

pub open spec fn cmds_view(s: Seq<CommandDefinition>) -> Seq<CmdV> {
    s.map_values(|c: CommandDefinition| cmd_view(c))
}

pub proof fn lemma_opts_view_index(s: Seq<CommandOption>, i: int)
    requires
        0 <= i < s.len(),
    ensures
        opts_view(s).len() == s.len(),
        opts_view(s)[i] == opt_view(s[i]),
    decreases s,
{
    lemma_opts_view_len(s);
    if i < s.len() - 1 {
        lemma_opts_view_index(s.drop_last(), i);
    } else {
        lemma_opts_view_len(s.drop_last());
    }
}

pub proof fn lemma_opts_view_len(s: Seq<CommandOption>)
    ensures
        opts_view(s).len() == s.len(),
    decreases s,
{
    if s.len() > 0 {
        lemma_opts_view_len(s.drop_last());
    }
}

impl Clone for CommandOptionChoice {
    /// A clone views the same.
    fn clone(&self) -> (r: Self)
        ensures
            choice_view(r) == choice_view(*self),
    {
        CommandOptionChoice {
            name: self.name.clone(),
            name_localizations: match &self.name_localizations {
                Option::None => Option::None,
                Option::Some(m) => Option::Some(m.clone()),
            },
            value: self.value.clone(),
        }
    }
}

fn dup_loc(l: &Option<LocaleMap>) -> (r: Option<LocaleMap>)
    ensures
        loc_opt_view(r) == loc_opt_view(*l),
{
    match l {
        Option::None => Option::None,
        Option::Some(m) => Option::Some(m.clone()),
    }
}

fn dup_options(v: &Vec<CommandOption>) -> (r: Vec<CommandOption>)
    ensures
        opts_view(r@) == opts_view(v@),
    decreases v@,
{
    let mut r: Vec<CommandOption> = Vec::new();
    let mut i: usize = 0;
    while i < v.len()
        invariant
            0 <= i <= v@.len(),
            r@.len() == i,
            forall|j: int| 0 <= j < i ==> opt_view(#[trigger] r@[j]) == opt_view(v@[j]),
        decreases v@.len() - i,
    {
        r.push(v[i].duplicate());
        i = i + 1;
    }
    proof {
        assert forall|j: int| 0 <= j < v@.len() implies opts_view(r@)[j] == opts_view(v@)[j] by {
            lemma_opts_view_index(r@, j);
            lemma_opts_view_index(v@, j);
        }
        lemma_opts_view_len(r@);
        lemma_opts_view_len(v@);
        assert(opts_view(r@) =~= opts_view(v@));
    }
    r
}

impl CommandOption {
    /// Returns a copy carrying the same content.
    pub fn duplicate(&self) -> (r: Self)
        ensures
            opt_view(r) == opt_view(*self),
        decreases *self,
    {
        CommandOption {
            name: self.name.clone(),
            kind: self.kind,
            description: self.description.clone(),
            name_localizations: dup_loc(&self.name_localizations),
            description_localizations: dup_loc(&self.description_localizations),
            required: self.required,
            autocomplete: self.autocomplete,
            min_length: self.min_length,
            max_length: self.max_length,
            min_value: self.min_value,
            max_value: self.max_value,
            channel_types: match &self.channel_types {
                Option::None => Option::None,
                Option::Some(v) => {
                    let mut c: Vec<u8> = Vec::new();
                    let mut i: usize = 0;
                    while i < v.len()
                        invariant
                            0 <= i <= v@.len(),
                            c@ == v@.take(i as int),
                        decreases v@.len() - i,
                    {
                        c.push(v[i]);
                        proof {
                            assert(c@ =~= v@.take(i + 1));
                        }
                        i = i + 1;
                    }
                    proof {
                        assert(v@.take(v@.len() as int) =~= v@);
                    }
                    Option::Some(c)
                },
            },
            choices: match &self.choices {
                Option::None => Option::None,
                Option::Some(v) => {
                    let mut c: Vec<CommandOptionChoice> = Vec::new();
                    let mut i: usize = 0;
                    while i < v.len()
                        invariant
                            0 <= i <= v@.len(),
                            c@.len() == i,
                            forall|j: int|
                                0 <= j < i ==> choice_view(#[trigger] c@[j]) == choice_view(v@[j]),
                        decreases v@.len() - i,
                    {
                        c.push(v[i].clone());
                        i = i + 1;
                    }
                    proof {
                        assert(choices_view(c@) =~= choices_view(v@));
                    }
                    Option::Some(c)
                },
            },
            options: match &self.options {
                Option::None => Option::None,
                Option::Some(v) => Option::Some(dup_options(v)),
            },
        }
    }
}

impl CommandDefinition {
    /// Returns a copy carrying the same content.
    pub fn duplicate(&self) -> (r: Self)
        ensures
            cmd_view(r) == cmd_view(*self),
    {
        CommandDefinition {
            id: self.id,
            name: self.name.clone(),
            kind: self.kind,
            description: self.description.clone(),
            default_member_permissions: self.default_member_permissions,
            dm_allowed: self.dm_allowed,
            nsfw: self.nsfw,
            name_localizations: dup_loc(&self.name_localizations),
            description_localizations: dup_loc(&self.description_localizations),
            options: dup_options(&self.options),
        }
    }
}

impl Clone for ChoiceValue {
    /// A clone views the same.
    fn clone(&self) -> (r: Self)
        ensures
            choice_value_view(r) == choice_value_view(*self),
    {
        match self {
            ChoiceValue::Text(s) => ChoiceValue::Text(s.clone()),
            ChoiceValue::Int(i) => ChoiceValue::Int(*i),
            ChoiceValue::NumBits(b) => ChoiceValue::NumBits(*b),
        }
    }
}

} // verus!
