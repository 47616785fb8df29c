//! Names indexed by a locale such as `en` or `zh-CN`.
//!
//! The first entry for a locale is its canonical name. Every following entry
//! is an alias in that locale. Locales are kept in ascending `String` order
//! and each occurs once, as in an ordered map.

use vstd::prelude::*;

use crate::text::{compare_text, text_lt, lemma_text_lt_transitive, lemma_text_lt_irreflexive, TextOrder};

verus! {

/// One locale and its names, as plain texts.
pub type LocaleEntry = (Seq<char>, Seq<Seq<char>>);

/// Locales strictly ascending.
pub open spec fn locales_ascending(s: Seq<LocaleEntry>) -> bool {
    forall|i: int, j: int| 0 <= i < j < s.len() ==> text_lt(#[trigger] s[i].0, #[trigger] s[j].0)
}

/// The names of `locale`, if it has an entry.
pub open spec fn lookup_locale(s: Seq<LocaleEntry>, locale: Seq<char>) -> Option<Seq<Seq<char>>> {
    if has_locale(s, locale) {
        Some(s[locale_index(s, locale)].1)
    } else {
        None
    }
}

pub open spec fn has_locale(s: Seq<LocaleEntry>, locale: Seq<char>) -> bool {
    exists|i: int| 0 <= i < s.len() && #[trigger] s[i].0 == locale
}

/// Where `locale` stands, when it has an entry.
pub open spec fn locale_index(s: Seq<LocaleEntry>, locale: Seq<char>) -> int {
    choose|i: int| 0 <= i < s.len() && #[trigger] s[i].0 == locale
}

pub open spec fn entry_view(e: (String, Vec<String>)) -> LocaleEntry {
    (e.0@, e.1@.map_values(|n: String| n@))
}

/// Localized names: an ordered map from locale to its names.
pub struct LocalizedNames {
    entries: Vec<(String, Vec<String>)>,
}

impl View for LocalizedNames {
    type V = Seq<LocaleEntry>;

    closed spec fn view(&self) -> Seq<LocaleEntry> {
        self.entries@.map_values(|e: (String, Vec<String>)| entry_view(e))
    }
}

impl LocalizedNames {
    #[verifier::type_invariant]
    closed spec fn sorted(&self) -> bool {
        locales_ascending(self@)
    }

    /// No names at all.
    pub fn new() -> (res: Self)
        ensures
            res@ == Seq::<LocaleEntry>::empty(),
            locales_ascending(res@),
    {
        let res = LocalizedNames { entries: Vec::new() };
        assert(res@ =~= Seq::<LocaleEntry>::empty());
        res
    }

    /// The number of locales.
    pub fn len(&self) -> (res: usize)
        ensures
            res == self@.len(),
    {
        self.entries.len()
    }

    /// The `i`-th locale in ascending order, with its names.
    pub fn entry(&self, i: usize) -> (res: (&String, &Vec<String>))
        requires
            i < self@.len(),
        ensures
            res.0@ == self@[i as int].0,
            res.1@.map_values(|n: String| n@) == self@[i as int].1,
    {
        let e = &self.entries[i];
        (&e.0, &e.1)
    }

    /// The names of `locale` (`BTreeMap::get`).
    pub fn get(&self, locale: &str) -> (res: Option<&Vec<String>>)
        ensures
            match res {
                Some(v) => lookup_locale(self@, locale@) == Some(v@.map_values(|n: String| n@)),
                None => lookup_locale(self@, locale@) is None,
            },
    {
        proof {
            use_type_invariant(self);
        }
        let mut i: usize = 0;
        while i < self.entries.len()
            invariant
                i <= self.entries.len(),
                self@.len() == self.entries.len(),
                locales_ascending(self@),
                forall|j: int| 0 <= j < i ==> self@[j].0 != locale@,
            decreases self.entries.len() - i,
        {
            if compare_text(self.entries[i].0.as_str(), locale) == TextOrder::Equal {
                proof {
                    assert(self@[i as int].0 == locale@);
                    assert(has_locale(self@, locale@));
                    let k = locale_index(self@, locale@);
                    if k != i {
                        Self::lemma_unique_locales(self@, k, i as int);
                    }
                }
                return Some(&self.entries[i].1);
            }
            i = i + 1;
        }
        None
    }

    proof fn lemma_unique_locales(s: Seq<LocaleEntry>, a: int, b: int)
        requires
            locales_ascending(s),
            0 <= a < s.len(),
            0 <= b < s.len(),
            a != b,
        ensures
            s[a].0 != s[b].0,
    {
        lemma_text_lt_irreflexive(s[a].0);
        if a < b {
            assert(text_lt(s[a].0, s[b].0));
        } else {
            assert(text_lt(s[b].0, s[a].0));
        }
    }

    /// Give `locale` the names `names`, replacing any it had (`BTreeMap::insert`).
    pub fn insert(&mut self, locale: String, names: Vec<String>)
        ensures
            lookup_locale(final(self)@, locale@) == Some(names@.map_values(|n: String| n@)),
            forall|l: Seq<char>| l != locale@ ==> lookup_locale(final(self)@, l) == lookup_locale(old(self)@, l),
            locales_ascending(final(self)@),
    {
        proof {
            use_type_invariant(&*self);
        }
        let ghost old_view = self@;
        let ghost new_entry = entry_view((locale, names));
        let mut i: usize = 0;
        while i < self.entries.len()
            invariant
                i <= self.entries.len(),
                self@ == old_view,
                self@.len() == self.entries.len(),
                locales_ascending(old_view),
                forall|j: int| 0 <= j < i ==> text_lt(#[trigger] old_view[j].0, locale@),
            ensures
                i <= self.entries.len(),
                self@ == old_view,
                forall|j: int| 0 <= j < i ==> text_lt(#[trigger] old_view[j].0, locale@),
                i < self.entries.len() ==> !text_lt(old_view[i as int].0, locale@),
            decreases self.entries.len() - i,
        {
            if compare_text(self.entries[i].0.as_str(), locale.as_str()) != TextOrder::Less {
                break;
            }
            i = i + 1;
        }
        let replace = i < self.entries.len() && compare_text(self.entries[i].0.as_str(), locale.as_str()) == TextOrder::Equal;
        let ghost after: Seq<LocaleEntry>;
        if replace {
            let mut entries: Vec<(String, Vec<String>)> = Vec::new();
            std::mem::swap(&mut entries, &mut self.entries);
            entries.set(i, (locale, names));
            proof {
                after = old_view.update(i as int, new_entry);
                assert(entries@.map_values(|e: (String, Vec<String>)| entry_view(e)) =~= after);
                assert forall|a: int, b: int| 0 <= a < b < after.len() implies text_lt(#[trigger] after[a].0, #[trigger] after[b].0) by {
                    assert(after[a].0 == old_view[a].0);
                    assert(after[b].0 == old_view[b].0);
                }
            }
            self.entries = entries;
        } else {
            proof {
                if i < old_view.len() {
                    crate::text::lemma_text_lt_total(locale@, old_view[i as int].0);
                    assert(text_lt(locale@, old_view[i as int].0));
                }
            }
            let mut entries: Vec<(String, Vec<String>)> = Vec::new();
            std::mem::swap(&mut entries, &mut self.entries);
            entries.insert(i, (locale, names));
            proof {
                after = old_view.insert(i as int, new_entry);
                assert(entries@.map_values(|e: (String, Vec<String>)| entry_view(e)) =~= after);
                assert forall|a: int, b: int| 0 <= a < b < after.len() implies text_lt(#[trigger] after[a].0, #[trigger] after[b].0) by {
                    if b < i {
                    } else if a < i && b == i {
                        assert(text_lt(old_view[a].0, locale@));
                    } else if a < i {
                        assert(text_lt(old_view[a].0, locale@));
                        assert(text_lt(locale@, old_view[i as int].0));
                        if b - 1 > i {
                            assert(text_lt(old_view[i as int].0, old_view[b - 1].0));
                            lemma_text_lt_transitive(locale@, old_view[i as int].0, old_view[b - 1].0);
                        }
                        lemma_text_lt_transitive(old_view[a].0, locale@, old_view[b - 1].0);
                    } else if a == i {
                        if b - 1 > i {
                            assert(text_lt(old_view[i as int].0, old_view[b - 1].0));
                            lemma_text_lt_transitive(locale@, old_view[i as int].0, old_view[b - 1].0);
                        }
                    } else {
                        assert(text_lt(old_view[a - 1].0, old_view[b - 1].0));
                    }
                }
            }
            self.entries = entries;
        }
        proof {
            assert(self@ == after);
            assert(locales_ascending(after));
            Self::lemma_lookup_after(old_view, after, i as int, replace, locale@, new_entry);
        }
    }

    proof fn lemma_lookup_after(
        old_view: Seq<LocaleEntry>,
        after: Seq<LocaleEntry>,
        i: int,
        replace: bool,
        locale: Seq<char>,
        new_entry: LocaleEntry,
    )
        requires
            0 <= i <= old_view.len(),
            new_entry.0 == locale,
            locales_ascending(old_view),
            locales_ascending(after),
            replace ==> i < old_view.len() && old_view[i].0 == locale && after == old_view.update(i, new_entry),
            !replace ==> after == old_view.insert(i, new_entry),
        ensures
            lookup_locale(after, locale) == Some(new_entry.1),
            forall|l: Seq<char>| l != locale ==> lookup_locale(after, l) == lookup_locale(old_view, l),
    {
        assert(after[i].0 == locale);
        Self::lemma_lookup_at(after, i);
        assert forall|l: Seq<char>| l != locale implies lookup_locale(after, l) == lookup_locale(old_view, l) by {
            if has_locale(old_view, l) {
                let k = locale_index(old_view, l);
                Self::lemma_lookup_at(old_view, k);
                let k2 = if replace || k < i { k } else { k + 1 };
                assert(after[k2] == old_view[k]);
                Self::lemma_lookup_at(after, k2);
            } else {
                assert forall|k: int| 0 <= k < after.len() implies #[trigger] after[k].0 != l by {
                    if k != i {
                        let k0 = if replace || k < i { k } else { k - 1 };
                        assert(after[k] == old_view[k0]);
                    }
                }
            }
        }
    }

    proof fn lemma_lookup_at(s: Seq<LocaleEntry>, k: int)
        requires
            locales_ascending(s),
            0 <= k < s.len(),
        ensures
            lookup_locale(s, s[k].0) == Some(s[k].1),
    {
        let l = s[k].0;
        assert(0 <= k < s.len() && s[k].0 == l);
        assert(has_locale(s, l));
        let c = locale_index(s, l);
        if c != k {
            lemma_text_lt_irreflexive(l);
            if c < k {
                assert(text_lt(s[c].0, s[k].0));
            } else {
                assert(text_lt(s[k].0, s[c].0));
            }
        }
    }
}

} // verus!

verus! {

/// The first name of the first locale, in locale order, that has any.
pub open spec fn first_named(v: Seq<LocaleEntry>) -> Option<Seq<char>>
    decreases v.len(),
{
    if v.len() == 0 {
        None
    } else if v[0].1.len() > 0 {
        Some(v[0].1[0])
    } else {
        first_named(v.drop_first())
    }
}

/// The label shown for something with `names` and `id`: its canonical English
/// name, else the first name of the first locale that has one, else its id.
pub open spec fn label_spec(names: Seq<LocaleEntry>, id: Seq<char>) -> Seq<char> {
    if lookup_locale(names, "en"@) is Some && lookup_locale(names, "en"@)->0.len() > 0 {
        lookup_locale(names, "en"@)->0[0]
    } else {
        match first_named(names) {
            Some(n) => n,
            None => id,
        }
    }
}

impl LocalizedNames {
    /// The label for something named `self` with id `id`.
    pub fn label<'a>(&'a self, id: &'a String) -> (res: &'a String)
        ensures
            res@ == label_spec(self@, id@),
    {
        match self.get("en") {
            Some(names) => {
                if names.len() > 0 {
                    proof {
                        assert(names@.map_values(|n: String| n@)[0] == names@[0]@);
                    }
                    return &names[0];
                }
            },
            None => {},
        }
        let mut i: usize = 0;
        proof {
            assert(self@.skip(0) =~= self@);
        }
        while i < self.entries.len()
            invariant
                i <= self.entries.len(),
                self@.len() == self.entries.len(),
                !(lookup_locale(self@, "en"@) is Some && lookup_locale(self@, "en"@)->0.len() > 0),
                first_named(self@) == first_named(self@.skip(i as int)),
            decreases self.entries.len() - i,
        {
            let names = &self.entries[i].1;
            proof {
                assert(self@.skip(i as int)[0] == self@[i as int]);
                assert(self@[i as int].1 == names@.map_values(|n: String| n@));
                assert(self@.skip(i as int).drop_first() =~= self@.skip(i + 1));
            }
            if names.len() > 0 {
                proof {
                    assert(names@.map_values(|n: String| n@)[0] == names@[0]@);
                }
                return &names[0];
            }
            i = i + 1;
        }
        id
    }
}

/// The first name of the earliest locale whose list is not empty.
proof fn lemma_first_named_at(v: Seq<LocaleEntry>, i: int)
    requires
        0 <= i < v.len(),
        v[i].1.len() > 0,
        forall|j: int| 0 <= j < i ==> (#[trigger] v[j]).1.len() == 0,
    ensures
        first_named(v) == Some(v[i].1[0]),
    decreases i,
{
    if i > 0 {
        let rest = v.drop_first();
        assert(v[0].1.len() == 0);
        assert forall|j: int| 0 <= j < i - 1 implies (#[trigger] rest[j]).1.len() == 0 by {
            assert(rest[j] == v[j + 1]);
        }
        assert(rest[i - 1] == v[i]);
        lemma_first_named_at(rest, i - 1);
    }
}

/// No locale has a name.
proof fn lemma_first_named_none(v: Seq<LocaleEntry>)
    requires
        forall|j: int| 0 <= j < v.len() ==> (#[trigger] v[j]).1.len() == 0,
    ensures
        first_named(v) is None,
    decreases v.len(),
{
    if v.len() > 0 {
        let rest = v.drop_first();
        assert(v[0].1.len() == 0);
        assert forall|j: int| 0 <= j < rest.len() implies (#[trigger] rest[j]).1.len() == 0 by {
            assert(rest[j] == v[j + 1]);
        }
        lemma_first_named_none(rest);
    }
}

/// A locale entry `en` with at least one name supplies the label: its
/// canonical (first) name, whatever other locales hold.
pub proof fn lemma_label_prefers_english(names: Seq<LocaleEntry>, id: Seq<char>, k: int)
    requires
        locales_ascending(names),
        0 <= k < names.len(),
        names[k].0 == "en"@,
        names[k].1.len() > 0,
    ensures
        label_spec(names, id) == names[k].1[0],
{
    LocalizedNames::lemma_lookup_at(names, k);
}

/// Without an `en` entry that has a name, the label is the first name of the
/// earliest locale, in locale order, whose list is not empty.
pub proof fn lemma_label_earliest_named_locale(names: Seq<LocaleEntry>, id: Seq<char>, i: int)
    requires
        forall|k: int| 0 <= k < names.len() && (#[trigger] names[k]).0 == "en"@ ==> names[k].1.len() == 0,
        0 <= i < names.len(),
        names[i].1.len() > 0,
        forall|j: int| 0 <= j < i ==> (#[trigger] names[j]).1.len() == 0,
    ensures
        label_spec(names, id) == names[i].1[0],
{
    if lookup_locale(names, "en"@) is Some {
        let c = locale_index(names, "en"@);
        assert(names[c].0 == "en"@);
    }
    lemma_first_named_at(names, i);
}

/// When no locale has a name, the label is the id.
pub proof fn lemma_label_falls_back_to_id(names: Seq<LocaleEntry>, id: Seq<char>)
    requires
        forall|k: int| 0 <= k < names.len() ==> (#[trigger] names[k]).1.len() == 0,
    ensures
        label_spec(names, id) == id,
{
    if lookup_locale(names, "en"@) is Some {
        let c = locale_index(names, "en"@);
        assert(names[c].0 == "en"@);
    }
    lemma_first_named_none(names);
}

} // verus!
