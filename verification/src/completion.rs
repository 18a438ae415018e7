//! The facts that an extraction yields: a label with typed attributes.

use crate::text::same_text;
use vstd::prelude::*;
use vstd::string::*;

verus! {

/// A map from field names to field values. Binding a name again replaces
/// its value.
#[derive(Debug, Clone)]
pub struct FieldMap {
    entries: Vec<(String, String)>,
}

/// The map that results from binding the pairs of `entries` one after the
/// other, so that the last binding of a name holds.
pub open spec fn bind_all(entries: Seq<(Seq<char>, Seq<char>)>) -> Map<Seq<char>, Seq<char>>
    decreases entries.len(),
{
    if entries.len() == 0 {
        Map::empty()
    } else {
        bind_all(entries.drop_last()).insert(entries.last().0, entries.last().1)
    }
}

/// The pairs of strings in `v`, each string as its sequence of characters.
pub open spec fn entry_views(v: Seq<(String, String)>) -> Seq<(Seq<char>, Seq<char>)> {
    Seq::new(v.len(), |i: int| (v[i].0@, v[i].1@))
}

impl View for FieldMap {
    type V = Map<Seq<char>, Seq<char>>;

    closed spec fn view(&self) -> Map<Seq<char>, Seq<char>> {
        bind_all(entry_views(self.entries@))
    }
}

/// A name is bound by [`bind_all`] exactly if an entry has it.
pub proof fn lemma_bound_names(entries: Seq<(Seq<char>, Seq<char>)>, key: Seq<char>)
    ensures
        bind_all(entries).contains_key(key) <==> exists|i: int|
            0 <= i < entries.len() && (#[trigger] entries[i]).0 == key,
    decreases entries.len(),
{
    if entries.len() > 0 {
        let rest = entries.drop_last();
        lemma_bound_names(rest, key);
        if bind_all(entries).contains_key(key) {
            if entries.last().0 == key {
                assert(entries[entries.len() - 1].0 == key);
            } else {
                let i = choose|i: int| 0 <= i < rest.len() && (#[trigger] rest[i]).0 == key;
                assert(entries[i].0 == key);
            }
        }
        if exists|i: int| 0 <= i < entries.len() && (#[trigger] entries[i]).0 == key {
            let i = choose|i: int| 0 <= i < entries.len() && (#[trigger] entries[i]).0 == key;
            if i < rest.len() {
                assert(rest[i].0 == key);
            }
        }
    }
}

impl FieldMap {
    /// The map without fields.
    pub fn new() -> (r: FieldMap)
        ensures
            r@ == Map::<Seq<char>, Seq<char>>::empty(),
    {
        FieldMap { entries: Vec::new() }
    }

    /// The value bound to `key`, if any.
    pub fn get(&self, key: &str) -> (r: Option<&String>)
        ensures
            match r {
                Some(v) => self@.contains_key(key@) && v@ == self@[key@],
                None => !self@.contains_key(key@),
            },
    {
        let ghost all = entry_views(self.entries@);
        let mut i: usize = self.entries.len();
        assert(all.take(i as int) == all);
        while i > 0
            invariant
                i <= self.entries@.len(),
                all == entry_views(self.entries@),
                self@ == bind_all(all),
                self@.contains_key(key@) == bind_all(all.take(i as int)).contains_key(key@),
                self@.contains_key(key@) ==> self@[key@] == bind_all(all.take(i as int))[key@],
            decreases i,
        {
            assert(all.take(i as int).drop_last() == all.take(i - 1));
            i = i - 1;
            if same_text(self.entries[i].0.as_str(), key) {
                return Some(&self.entries[i].1);
            }
        }
        assert(all.take(0) == Seq::<(Seq<char>, Seq<char>)>::empty());
        None
    }

    /// Whether `key` is bound.
    pub fn contains_key(&self, key: &str) -> (r: bool)
        ensures
            r == self@.contains_key(key@),
    {
        self.get(key).is_some()
    }

    /// The names that are bound, each once.
    pub fn keys(&self) -> (r: Vec<String>)
        ensures
            forall|k: Seq<char>|
                self@.contains_key(k) <==> exists|j: int|
                    0 <= j < r@.len() && (#[trigger] r@[j])@ == k,
            forall|a: int, b: int|
                0 <= a < b < r@.len() ==> (#[trigger] r@[a])@ != (#[trigger] r@[b])@,
    {
        let mut out: Vec<String> = Vec::new();
        let mut i: usize = 0;
        while i < self.entries.len()
            invariant
                i <= self.entries@.len(),
                forall|j: int|
                    0 <= j < out@.len() ==> exists|m: int|
                        0 <= m < i && (#[trigger] self.entries@[m]).0@ == (#[trigger] out@[j])@,
                forall|m: int|
                    0 <= m < i ==> exists|j: int|
                        0 <= j < out@.len() && (#[trigger] out@[j])@ == (
                        #[trigger] self.entries@[m]).0@,
                forall|a: int, b: int|
                    0 <= a < b < out@.len() ==> (#[trigger] out@[a])@ != (#[trigger] out@[b])@,
            decreases self.entries@.len() - i,
        {
            let key = self.entries[i].0.as_str();
            let ghost before = out@;
            let mut seen: bool = false;
            let mut j: usize = 0;
            while j < out.len() && !seen
                invariant
                    j <= out@.len(),
                    seen ==> j < out@.len() && out@[j as int]@ == key@,
                    !seen ==> forall|k: int| 0 <= k < j ==> (#[trigger] out@[k])@ != key@,
                decreases out@.len() - j + if seen { 0int } else { 1int },
            {
                if same_text(out[j].as_str(), key) {
                    seen = true;
                } else {
                    j = j + 1;
                }
            }
            if !seen {
                out.push(key.to_owned());
                assert(forall|j: int| 0 <= j < before.len() ==> out@[j] == before[j]);
                assert(out@[before.len() as int]@ == self.entries@[i as int].0@);
            } else {
                assert(out@[j as int]@ == self.entries@[i as int].0@);
            }
            i = i + 1;
        }
        proof {
            let all = entry_views(self.entries@);
            assert forall|k: Seq<char>|
                self@.contains_key(k) <==> exists|j: int|
                    0 <= j < out@.len() && (#[trigger] out@[j])@ == k by {
                lemma_bound_names(all, k);
                if self@.contains_key(k) {
                    let m = choose|m: int| 0 <= m < all.len() && (#[trigger] all[m]).0 == k;
                    assert(self.entries@[m].0@ == k);
                }
                if exists|j: int| 0 <= j < out@.len() && (#[trigger] out@[j])@ == k {
                    let j = choose|j: int| 0 <= j < out@.len() && (#[trigger] out@[j])@ == k;
                    let m = choose|m: int|
                        0 <= m < i && (#[trigger] self.entries@[m]).0@ == out@[j]@;
                    assert(all[m].0 == k);
                }
            }
        }
        out
    }

    /// Binds `key` to `value`, replacing what it was bound to before.
    pub fn insert(&mut self, key: String, value: String)
        ensures
            final(self)@ == old(self)@.insert(key@, value@),
    {
        let ghost before = entry_views(self.entries@);
        self.entries.push((key, value));
        assert(entry_views(self.entries@).drop_last() == before);
    }
}

/// What kind of fact a completion is, with the data of that kind.
#[derive(Debug, Clone)]
pub enum CompletionType {
    /// A glossary definition with its fields.
    Glossaryentry(FieldMap),
    /// A bibliography entry with its fields and its entry type in lower case.
    Citation(FieldMap, String),
    /// A section heading with the kind of heading.
    Section(String),
    /// A label.
    Label,
}

/// The mathematical value of a [`CompletionType`].
pub enum Attributes {
    Glossaryentry(Map<Seq<char>, Seq<char>>),
    Citation(Map<Seq<char>, Seq<char>>, Seq<char>),
    Section(Seq<char>),
    Label,
}

impl View for CompletionType {
    type V = Attributes;

    open spec fn view(&self) -> Attributes {
        match self {
            CompletionType::Glossaryentry(fields) => Attributes::Glossaryentry(fields@),
            CompletionType::Citation(fields, kind) => Attributes::Citation(fields@, kind@),
            CompletionType::Section(kind) => Attributes::Section(kind@),
            CompletionType::Label => Attributes::Label,
        }
    }
}

/// One extracted fact.
#[derive(Debug, Clone)]
pub struct Completion {
    pub label: String,
    pub attributes: CompletionType,
}

/// The mathematical value of a [`Completion`].
pub struct Fact {
    pub label: Seq<char>,
    pub attributes: Attributes,
}

impl View for Completion {
    type V = Fact;

    open spec fn view(&self) -> Fact {
        Fact { label: self.label@, attributes: self.attributes@ }
    }
}

impl Completion {
    /// The completion with the given label and attributes.
    pub fn new(name: &str, attr: CompletionType) -> (r: Completion)
        ensures
            r.label@ == name@,
            r.attributes == attr,
    {
        Completion { label: name.to_owned(), attributes: attr }
    }
}

/// The facts held by a sequence of completions, in order.
pub open spec fn facts(v: Seq<Completion>) -> Seq<Fact> {
    Seq::new(v.len(), |i: int| v[i]@)
}

} // verus!
