//! The contents that wait to be placed in a file, by section name.

use crate::text;
use vstd::prelude::*;

verus! {

/// The content kept under a name.
pub open spec fn lookup(m: Seq<(Seq<char>, Seq<u8>)>, name: Seq<char>) -> Option<Seq<u8>>
    decreases m.len(),
{
    if m.len() == 0 {
        None
    } else if m[0].0 == name {
        Some(m[0].1)
    } else {
        lookup(m.drop_first(), name)
    }
}

/// The contents after one is kept under a name: it takes the place of the one under
/// that name, or stands before the first name that comes behind it.
pub open spec fn put(m: Seq<(Seq<char>, Seq<u8>)>, name: Seq<char>, content: Seq<u8>) -> Seq<
    (Seq<char>, Seq<u8>),
>
    decreases m.len(),
{
    if m.len() == 0 {
        seq![(name, content)]
    } else if m[0].0 == name {
        seq![(name, content)] + m.drop_first()
    } else if text::text_before(name, m[0].0) {
        seq![(name, content)] + m
    } else {
        seq![m[0]] + put(m.drop_first(), name, content)
    }
}

/// The names stand in dictionary order, none twice.
pub open spec fn ordered(m: Seq<(Seq<char>, Seq<u8>)>) -> bool {
    forall|i: int, j: int| 0 <= i < j < m.len() ==> text::text_before(m[i].0, m[j].0)
}

/// Contents by section name, in the order of the names.
pub struct SectionMap {
    items: Vec<(String, Vec<u8>)>,
}

impl View for SectionMap {
    type V = Seq<(Seq<char>, Seq<u8>)>;

    closed spec fn view(&self) -> Seq<(Seq<char>, Seq<u8>)> {
        self.items@.map_values(|item: (String, Vec<u8>)| (item.0@, item.1@))
    }
}

impl SectionMap {
    /// The names stand in order, none twice.
    #[verifier::type_invariant]
    closed spec fn is_ordered(self) -> bool {
        ordered(self@)
    }

    /// No contents.
    pub fn new() -> (r: SectionMap)
        ensures
            r@ == Seq::<(Seq<char>, Seq<u8>)>::empty(),
    {
        let items: Vec<(String, Vec<u8>)> = Vec::new();
        let r = SectionMap { items };
        assert(r@ =~= Seq::<(Seq<char>, Seq<u8>)>::empty());
        r
    }

    /// The number of contents. Their names stand in order, none twice.
    pub fn len(&self) -> (r: usize)
        ensures
            r == self@.len(),
            ordered(self@),
    {
        proof {
            use_type_invariant(self);
        }
        self.items.len()
    }

    /// The `i`-th name.
    pub fn name(&self, i: usize) -> (r: &str)
        requires
            i < self@.len(),
        ensures
            r@ == self@[i as int].0,
    {
        self.items[i].0.as_str()
    }

    /// The `i`-th content.
    pub fn content(&self, i: usize) -> (r: &Vec<u8>)
        requires
            i < self@.len(),
        ensures
            r@ == self@[i as int].1,
    {
        &self.items[i].1
    }

    /// The content kept under a name.
    pub fn get(&self, name: &str) -> (r: Option<&Vec<u8>>)
        ensures
            match r {
                Some(content) => lookup(self@, name@) == Some(content@),
                None => lookup(self@, name@) is None,
            },
    {
        let mut i: usize = 0;
        assert(self@.skip(0) =~= self@);
        while i < self.items.len()
            invariant
                i <= self.items.len(),
                lookup(self@, name@) == lookup(self@.skip(i as int), name@),
            decreases self.items.len() - i,
        {
            assert(self@.skip(i as int)[0] == self@[i as int]);
            if text::same_text(self.items[i].0.as_str(), name) {
                return Some(&self.items[i].1);
            }
            assert(self@.skip(i as int).drop_first() =~= self@.skip(i + 1));
            i = i + 1;
        }
        None
    }

    /// Keeps a content under a name.
    pub fn put(&mut self, name: &str, content: Vec<u8>)
        ensures
            final(self)@ == put(old(self)@, name@, content@),
    {
        let ghost before = self@;
        let mut i: usize = 0;
        assert(before.skip(0) =~= before);
        assert(before.take(0) + put(before, name@, content@) =~= put(before, name@, content@));
        while i < self.items.len() && !text::same_text(self.items[i].0.as_str(), name)
            && !text::comes_before(name, self.items[i].0.as_str())
            invariant
                i <= self.items.len(),
                self@ == before,
                put(before, name@, content@) == before.take(i as int) + put(
                    before.skip(i as int),
                    name@,
                    content@,
                ),
            decreases self.items.len() - i,
        {
            proof {
                let rest = before.skip(i as int);
                assert(rest[0] == before[i as int]);
                assert(rest.drop_first() =~= before.skip(i + 1));
                assert(before.take(i as int) + put(rest, name@, content@) =~= before.take(i + 1)
                    + put(rest.drop_first(), name@, content@));
            }
            i = i + 1;
        }
        let ghost rest = before.skip(i as int);
        let ghost bytes = content@;
        let found = i < self.items.len() && text::same_text(self.items[i].0.as_str(), name);
        proof {
            use_type_invariant(&*self);
            lemma_put_ordered(before, name@, bytes);
        }
        let mut items: Vec<(String, Vec<u8>)> = Vec::new();
        std::mem::swap(&mut items, &mut self.items);
        if found {
            items[i] = (name.to_owned(), content);
        } else {
            items.insert(i, (name.to_owned(), content));
        }
        let ghost after = items@.map_values(|item: (String, Vec<u8>)| (item.0@, item.1@));
        proof {
            if found {
                assert(rest[0] == before[i as int]);
                assert(after =~= before.update(i as int, (name@, bytes)));
                assert(after =~= before.take(i as int) + (seq![(name@, bytes)]
                    + rest.drop_first()));
            } else {
                assert(after =~= before.insert(i as int, (name@, bytes)));
                if i < before.len() {
                    assert(rest[0] == before[i as int]);
                    assert(after =~= before.take(i as int) + (seq![(name@, bytes)] + rest));
                } else {
                    assert(rest.len() == 0);
                    assert(after =~= before.take(i as int) + seq![(name@, bytes)]);
                }
            }
        }
        self.items = items;
    }

    /// The same contents again.
    pub fn duplicate(&self) -> (r: SectionMap)
        ensures
            r@ == self@,
    {
        let mut items: Vec<(String, Vec<u8>)> = Vec::new();
        let mut i: usize = 0;
        while i < self.items.len()
            invariant
                i <= self.items.len(),
                items@.len() == i,
                forall|j: int|
                    0 <= j < i ==> items@[j].0@ == self.items@[j].0@ && items@[j].1@
                        == self.items@[j].1@,
            decreases self.items.len() - i,
        {
            items.push((self.items[i].0.as_str().to_owned(), self.items[i].1.clone()));
            i = i + 1;
        }
        proof {
            use_type_invariant(self);
            assert(items@.map_values(|item: (String, Vec<u8>)| (item.0@, item.1@)) =~= self@);
        }
        SectionMap { items }
    }
}

/// What is kept under a name is found there, and nothing else changes.
pub proof fn lemma_lookup_put(
    m: Seq<(Seq<char>, Seq<u8>)>,
    name: Seq<char>,
    content: Seq<u8>,
    other: Seq<char>,
)
    ensures
        lookup(put(m, name, content), name) == Some(content),
        other != name ==> lookup(put(m, name, content), other) == lookup(m, other),
    decreases m.len(),
{
    let p = put(m, name, content);
    if m.len() == 0 {
        assert(p.drop_first() =~= m);
    } else if m[0].0 == name {
        assert(p.drop_first() =~= m.drop_first());
    } else if text::text_before(name, m[0].0) {
        assert(p.drop_first() =~= m);
    } else {
        assert(p.drop_first() =~= put(m.drop_first(), name, content));
        lemma_lookup_put(m.drop_first(), name, content, other);
    }
}

/// Keeping a content under a name keeps the order of the names.
pub proof fn lemma_put_ordered(m: Seq<(Seq<char>, Seq<u8>)>, name: Seq<char>, content: Seq<u8>)
    requires
        ordered(m),
    ensures
        ordered(put(m, name, content)),
        forall|i: int|
            0 <= i < put(m, name, content).len() ==> (#[trigger] put(
                m,
                name,
                content,
            )[i]).0 == name || exists|j: int| 0 <= j < m.len() && m[j].0 == put(
                m,
                name,
                content,
            )[i].0,
    decreases m.len(),
{
    let p = put(m, name, content);
    if m.len() == 0 {
    } else if m[0].0 == name {
        assert forall|i: int, j: int| 0 <= i < j < p.len() implies text::text_before(
            p[i].0,
            p[j].0,
        ) by {
            assert(p[i].0 == m[i].0 && p[j].0 == m[j].0);
        }
        assert forall|i: int| 0 <= i < p.len() implies p[i].0 == name || exists|j: int|
            0 <= j < m.len() && m[j].0 == p[i].0 by {
            assert(m[i].0 == p[i].0);
        }
    } else if text::text_before(name, m[0].0) {
        assert forall|i: int, j: int| 0 <= i < j < p.len() implies text::text_before(
            p[i].0,
            p[j].0,
        ) by {
            assert(p[j] == m[j - 1]);
            if i == 0 {
                if j > 1 {
                    assert(text::text_before(m[0].0, m[j - 1].0));
                    text::lemma_before_transitive(
                        vstd::utf8::encode_utf8(name),
                        vstd::utf8::encode_utf8(m[0].0),
                        vstd::utf8::encode_utf8(m[j - 1].0),
                    );
                }
            } else {
                assert(p[i] == m[i - 1]);
            }
        }
        assert forall|i: int| 0 <= i < p.len() implies p[i].0 == name || exists|j: int|
            0 <= j < m.len() && m[j].0 == p[i].0 by {
            if i > 0 {
                assert(m[i - 1].0 == p[i].0);
            }
        }
    } else {
        let rest = m.drop_first();
        let tail = put(rest, name, content);
        assert forall|i: int, j: int| 0 <= i < j < rest.len() implies text::text_before(
            rest[i].0,
            rest[j].0,
        ) by {
            assert(rest[i] == m[i + 1] && rest[j] == m[j + 1]);
        }
        lemma_put_ordered(rest, name, content);
        let a = vstd::utf8::encode_utf8(name);
        let b = vstd::utf8::encode_utf8(m[0].0);
        text::lemma_before_total(a, b);
        vstd::utf8::encode_utf8_decode_utf8(name);
        vstd::utf8::encode_utf8_decode_utf8(m[0].0);
        assert(text::text_before(m[0].0, name));
        assert forall|i: int| 0 <= i < p.len() implies p[i].0 == name || exists|j: int|
            0 <= j < m.len() && m[j].0 == p[i].0 by {
            if i == 0 {
                assert(m[0].0 == p[0].0);
            } else {
                assert(p[i] == tail[i - 1]);
                if tail[i - 1].0 != name {
                    let j = choose|j: int| 0 <= j < rest.len() && rest[j].0 == tail[i - 1].0;
                    assert(m[j + 1].0 == p[i].0);
                }
            }
        }
        assert forall|i: int, j: int| 0 <= i < j < p.len() implies text::text_before(
            p[i].0,
            p[j].0,
        ) by {
            assert(p[j] == tail[j - 1]);
            if i == 0 {
                if tail[j - 1].0 != name {
                    let k = choose|k: int| 0 <= k < rest.len() && rest[k].0 == tail[j - 1].0;
                    assert(rest[k] == m[k + 1]);
                }
            } else {
                assert(p[i] == tail[i - 1]);
            }
        }
    }
}

} // verus!
