//! A collection that holds one value under each name, in the order of the
//! names.

use vstd::prelude::*;
use vstd::string::*;

use crate::text::characters;
use crate::tls::config::{copy_texts, texts};

verus! {

/// Whether one name comes before another, character by character.
pub open spec fn before(left: Seq<char>, right: Seq<char>) -> bool
    decreases left.len(),
{
    if right.len() == 0 {
        false
    } else if left.len() == 0 {
        true
    } else if left[0] != right[0] {
        left[0] < right[0]
    } else {
        before(left.skip(1), right.skip(1))
    }
}

/// A name never comes before itself, and of two names that differ exactly
/// one comes first.
pub proof fn lemma_before_is_total(left: Seq<char>, right: Seq<char>)
    ensures
        left == right ==> !before(left, right),
        left != right ==> (before(left, right) <==> !before(right, left)),
    decreases left.len(),
{
    if left.len() > 0 && right.len() > 0 {
        if left[0] == right[0] {
            lemma_before_is_total(left.skip(1), right.skip(1));
            if left.skip(1) == right.skip(1) {
                assert(left =~= seq![left[0]] + left.skip(1));
                assert(right =~= seq![right[0]] + right.skip(1));
            }
        }
    } else if left.len() == 0 && right.len() == 0 {
        assert(left =~= right);
    }
}

/// The order carries over.
pub proof fn lemma_before_carries(first: Seq<char>, second: Seq<char>, third: Seq<char>)
    requires
        before(first, second),
        before(second, third),
    ensures
        before(first, third),
    decreases first.len(),
{
    if first.len() > 0 && second.len() > 0 && third.len() > 0 {
        if first[0] == second[0] && second[0] == third[0] {
            lemma_before_carries(first.skip(1), second.skip(1), third.skip(1));
        }
    }
}

/// Whether names stand in order, each before the next.
pub open spec fn in_order(names: Seq<Seq<char>>) -> bool {
    forall|i: int, j: int| 0 <= i < j < names.len() ==> before(#[trigger] names[i], #[trigger] names[j])
}

/// The names among pairs.
pub open spec fn names_of<T>(pairs: Seq<(String, T)>) -> Seq<Seq<char>> {
    Seq::new(pairs.len(), |i: int| pairs[i].0@)
}

/// How two names stand to each other.
#[derive(Clone, Copy, Debug, PartialEq, Eq, Structural)]
pub enum Place {
    Before,
    Same,
    After,
}

fn place(left: &str, right: &str) -> (r: Place)
    ensures
        r == Place::Before <==> before(left@, right@),
        r == Place::Same <==> left@ == right@,
        r == Place::After <==> before(right@, left@),
{
    let mine = characters(left);
    let theirs = characters(right);
    let mut at: usize = 0;
    proof {
        lemma_before_is_total(left@, right@);
        assert(left@.skip(0) =~= left@);
        assert(right@.skip(0) =~= right@);
    }
    while at < mine.len() && at < theirs.len()
        invariant
            at <= mine.len(),
            at <= theirs.len(),
            mine@ == left@,
            theirs@ == right@,
            before(left@, right@) == before(left@.skip(at as int), right@.skip(at as int)),
            before(right@, left@) == before(right@.skip(at as int), left@.skip(at as int)),
            forall|i: int| 0 <= i < at ==> left@[i] == right@[i],
            left@ == right@ ==> !before(left@, right@),
            left@ != right@ ==> (before(left@, right@) <==> !before(right@, left@)),
        decreases mine.len() - at,
    {
        proof {
            assert(left@.skip(at as int).skip(1) =~= left@.skip(at + 1));
            assert(right@.skip(at as int).skip(1) =~= right@.skip(at + 1));
        }
        if mine[at] < theirs[at] {
            return Place::Before;
        }
        if mine[at] > theirs[at] {
            return Place::After;
        }
        at += 1;
    }
    if mine.len() == theirs.len() {
        assert(left@ =~= right@);
        Place::Same
    } else if mine.len() < theirs.len() {
        Place::Before
    } else {
        Place::After
    }
}

/// One value under each name, in the order of the names.
#[derive(Clone, Debug, PartialEq, Eq)]
pub struct Shelf<T> {
    pairs: Vec<(String, T)>,
}

impl<T> Shelf<T> {
    /// The pairs it holds, in order.
    pub closed spec fn held(self) -> Seq<(String, T)> {
        self.pairs@
    }

    /// The names it holds values under, in order.
    pub open spec fn names(self) -> Seq<Seq<char>> {
        names_of(self.held())
    }

    /// No two names are the same, and they stand in order.
    pub open spec fn wf(self) -> bool {
        in_order(self.names())
    }

    /// Where a name stands.
    pub open spec fn at(self, name: Seq<char>) -> int
        recommends
            self.has(name),
    {
        choose|i: int| 0 <= i < self.names().len() && self.names()[i] == name
    }

    /// Whether there is a value under a name.
    pub open spec fn has(self, name: Seq<char>) -> bool {
        self.names().contains(name)
    }

    /// The value under a name.
    pub open spec fn value(self, name: Seq<char>) -> T
        recommends
            self.has(name),
    {
        self.held()[self.at(name)].1
    }

    /// Nothing.
    pub fn new() -> (r: Self)
        ensures
            r.wf(),
            r.held() == Seq::<(String, T)>::empty(),
            forall|name: Seq<char>| !r.has(name),
    {
        Shelf { pairs: Vec::new() }
    }

    /// How many values it holds.
    pub fn len(&self) -> (r: usize)
        ensures
            r == self.held().len(),
    {
        self.pairs.len()
    }

    /// Whether it holds nothing.
    pub fn is_empty(&self) -> (r: bool)
        ensures
            r == (self.held().len() == 0),
    {
        self.pairs.len() == 0
    }

    /// The name and value at one place.
    pub fn pair(&self, at: usize) -> (r: &(String, T))
        requires
            at < self.held().len(),
        ensures
            *r == self.held()[at as int],
    {
        &self.pairs[at]
    }

    /// The names it holds values under, in order.
    pub fn keys(&self) -> (r: Vec<&str>)
        ensures
            r@.len() == self.names().len(),
            forall|i: int| 0 <= i < r@.len() ==> (#[trigger] r@[i])@ == self.names()[i],
    {
        let mut found: Vec<&str> = Vec::new();
        let mut at: usize = 0;
        while at < self.pairs.len()
            invariant
                at <= self.pairs.len(),
                found@.len() == at,
                forall|i: int| 0 <= i < at ==> (#[trigger] found@[i])@ == self.names()[i],
            decreases self.pairs.len() - at,
        {
            found.push(self.pairs[at].0.as_str());
            at += 1;
        }
        found
    }

    /// Where a name stands, or where it would.
    fn find(&self, name: &str) -> (r: (usize, bool))
        requires
            self.wf(),
        ensures
            r.0 <= self.pairs@.len(),
            r.1 ==> r.0 < self.pairs@.len() && self.names()[r.0 as int] == name@,
            r.1 <==> self.has(name@),
            forall|i: int| 0 <= i < r.0 ==> before(#[trigger] self.names()[i], name@),
            !r.1 ==> forall|i: int| r.0 <= i < self.names().len() ==> before(
                name@,
                #[trigger] self.names()[i],
            ),
    {
        let mut at: usize = 0;
        while at < self.pairs.len()
            invariant
                at <= self.pairs.len(),
                self.wf(),
                forall|i: int| 0 <= i < at ==> before(#[trigger] self.names()[i], name@),
            decreases self.pairs.len() - at,
        {
            assert(self.names()[at as int] == self.pairs@[at as int].0@);
            match place(self.pairs[at].0.as_str(), name) {
                Place::Before => {
                    at += 1;
                },
                Place::Same => {
                    return (at, true);
                },
                Place::After => {
                    proof {
                        assert forall|i: int| at <= i < self.names().len() implies before(
                            name@,
                            #[trigger] self.names()[i],
                        ) by {
                            if i > at {
                                assert(before(self.names()[at as int], self.names()[i]));
                                lemma_before_carries(
                                    name@,
                                    self.names()[at as int],
                                    self.names()[i],
                                );
                            }
                        }
                        self.lemma_not_among(name@, at as int);
                    }
                    return (at, false);
                },
            }
        }
        proof {
            self.lemma_not_among(name@, at as int);
        }
        (at, false)
    }

    proof fn lemma_not_among(self, name: Seq<char>, at: int)
        requires
            0 <= at <= self.names().len(),
            forall|i: int| 0 <= i < at ==> before(#[trigger] self.names()[i], name),
            forall|i: int| at <= i < self.names().len() ==> before(name, #[trigger] self.names()[i]),
        ensures
            !self.has(name),
    {
        if self.has(name) {
            let i = choose|i: int| 0 <= i < self.names().len() && self.names()[i] == name;
            lemma_before_is_total(name, name);
        }
    }

    /// A name stands in one place only.
    pub proof fn lemma_one_place(self, name: Seq<char>, at: int)
        requires
            self.wf(),
            0 <= at < self.names().len(),
            self.names()[at] == name,
        ensures
            self.has(name),
            self.at(name) == at,
            self.value(name) == self.held()[at].1,
    {
        let other = self.at(name);
        assert(self.names().contains(name));
        lemma_before_is_total(name, name);
        if other < at {
            assert(before(self.names()[other], self.names()[at]));
        } else if at < other {
            assert(before(self.names()[at], self.names()[other]));
        }
    }

    /// The value under a name, when there is one.
    pub fn get(&self, name: &str) -> (r: Option<&T>)
        requires
            self.wf(),
        ensures
            match r {
                Some(value) => self.has(name@) && *value == self.value(name@),
                None => !self.has(name@),
            },
    {
        let (at, there) = self.find(name);
        if there {
            proof {
                self.lemma_one_place(name@, at as int);
            }
            Some(&self.pairs[at].1)
        } else {
            None
        }
    }

    /// Whether there is a value under a name.
    pub fn contains_key(&self, name: &str) -> (r: bool)
        requires
            self.wf(),
        ensures
            r == self.has(name@),
    {
        self.find(name).1
    }

    /// Puts a value under a name, in place of the one that was there.
    pub fn insert(&mut self, name: String, value: T)
        requires
            old(self).wf(),
        ensures
            final(self).wf(),
            final(self).has(name@),
            final(self).value(name@) == value,
            forall|other: Seq<char>|
                #![trigger final(self).has(other)]
                other != name@ ==> final(self).has(other) == old(self).has(other),
            forall|other: Seq<char>|
                #![trigger final(self).value(other)]
                other != name@ && old(self).has(other) ==> final(self).value(other) == old(
                    self,
                ).value(other),
            final(self).held().len() == old(self).held().len() + (if old(self).has(name@) {
                0int
            } else {
                1
            }),
    {
        let (at, there) = self.find(name.as_str());
        let ghost was = *self;
        let ghost names = self.names();
        let ghost wanted = name@;
        if there {
            self.pairs.set(at, (name, value));
            proof {
                assert(self.names() =~= names);
            }
        } else {
            self.pairs.insert(at, (name, value));
            proof {
                assert(self.names() =~= names.insert(at as int, wanted));
                assert forall|i: int, j: int| 0 <= i < j < self.names().len() implies before(
                    #[trigger] self.names()[i],
                    #[trigger] self.names()[j],
                ) by {
                    if i < at && j > at {
                        assert(before(names[i], names[j - 1]));
                    } else if i < at && j < at {
                        assert(before(names[i], names[j]));
                    } else if i > at {
                        assert(before(names[i - 1], names[j - 1]));
                    } else if i == at {
                        assert(before(wanted, names[j - 1]));
                    } else {
                        assert(before(names[i], wanted));
                    }
                }
            }
        }
        proof {
            assert(self.names()[at as int] == wanted);
            self.lemma_one_place(wanted, at as int);
            assert forall|other: Seq<char>|
                #![trigger self.has(other)]
                #![trigger self.value(other)]
                other != wanted implies self.has(other) == was.has(other) && (was.has(other) ==> self.value(other) == was.value(other)) by {
                if was.has(other) {
                    let i = was.at(other);
                    let now = if there || i < at {
                        i
                    } else {
                        i + 1
                    };
                    assert(self.names()[now] == other);
                    self.lemma_one_place(other, now);
                    was.lemma_one_place(other, i);
                } else if self.has(other) {
                    let i = self.at(other);
                    let then = if there || i < at {
                        i
                    } else {
                        i - 1
                    };
                    assert(names[then] == other);
                    assert(was.names().contains(other));
                }
            }
        }
    }

    /// Takes the value under a name away.
    pub fn remove(&mut self, name: &str)
        requires
            old(self).wf(),
        ensures
            final(self).wf(),
            !final(self).has(name@),
            forall|other: Seq<char>|
                #![trigger final(self).has(other)]
                other != name@ ==> final(self).has(other) == old(self).has(other),
            forall|other: Seq<char>|
                #![trigger final(self).value(other)]
                other != name@ && old(self).has(other) ==> final(self).value(other) == old(
                    self,
                ).value(other),
            final(self).held().len() == old(self).held().len() - (if old(self).has(name@) {
                1int
            } else {
                0
            }),
    {
        let (at, there) = self.find(name);
        if !there {
            return;
        }
        let ghost was = *self;
        let ghost names = self.names();
        let _gone = self.pairs.remove(at);
        proof {
            assert(self.names() =~= names.remove(at as int));
            assert forall|i: int, j: int| 0 <= i < j < self.names().len() implies before(
                #[trigger] self.names()[i],
                #[trigger] self.names()[j],
            ) by {
                let x = if i < at {
                    i
                } else {
                    i + 1
                };
                let y = if j < at {
                    j
                } else {
                    j + 1
                };
                assert(before(names[x], names[y]));
            }
            assert forall|other: Seq<char>| #[trigger] self.has(other) implies other != name@ by {
                let i = self.at(other);
                let then = if i < at {
                    i
                } else {
                    i + 1
                };
                assert(names[then] == self.names()[i]);
                lemma_before_is_total(name@, name@);
                if then < at {
                    assert(before(names[then], names[at as int]));
                } else {
                    assert(before(names[at as int], names[then]));
                }
            }
            assert forall|other: Seq<char>|
                #![trigger self.has(other)]
                #![trigger self.value(other)]
                other != name@ implies self.has(other) == was.has(other) && (was.has(other) ==> self.value(other) == was.value(other)) by {
                if was.has(other) {
                    let i = was.at(other);
                    was.lemma_one_place(other, i);
                    let now = if i < at {
                        i
                    } else {
                        i - 1
                    };
                    assert(self.names()[now] == other);
                    self.lemma_one_place(other, now);
                } else if self.has(other) {
                    let i = self.at(other);
                    let then = if i < at {
                        i
                    } else {
                        i + 1
                    };
                    assert(names[then] == other);
                    assert(was.names().contains(other));
                }
            }
        }
    }
}

impl<T> Shelf<T> {
    /// What holds nothing has nothing under any name.
    pub proof fn lemma_empty(self)
        ensures
            self.held().len() == 0 <==> forall|name: Seq<char>| !self.has(name),
    {
        if self.held().len() > 0 {
            assert(self.names().contains(self.names()[0]));
            assert(self.has(self.names()[0]));
        }
    }
}

proof fn lemma_same_names_in_order(left: Seq<Seq<char>>, right: Seq<Seq<char>>)
    requires
        in_order(left),
        in_order(right),
        forall|name: Seq<char>| left.contains(name) <==> right.contains(name),
    ensures
        left == right,
    decreases left.len(),
{
    if left.len() == 0 {
        if right.len() > 0 {
            assert(right.contains(right[0]));
            assert(left.contains(right[0]));
        }
        assert(left =~= right);
    } else if right.len() == 0 {
        assert(left.contains(left[0]));
        assert(right.contains(left[0]));
    } else {
        lemma_last_is_greatest(left);
        lemma_last_is_greatest(right);
        let (a, b) = (left.last(), right.last());
        assert(left[left.len() - 1] == a && right[right.len() - 1] == b);
        assert(left.contains(a) && right.contains(b));
        assert(right.contains(a) && left.contains(b));
        lemma_before_is_total(a, b);
        assert(a == b);
        let (l, r) = (left.drop_last(), right.drop_last());
        assert(in_order(l)) by {
            assert forall|i: int, j: int| 0 <= i < j < l.len() implies before(
                #[trigger] l[i],
                #[trigger] l[j],
            ) by {
                assert(before(left[i], left[j]));
            }
        }
        assert(in_order(r)) by {
            assert forall|i: int, j: int| 0 <= i < j < r.len() implies before(
                #[trigger] r[i],
                #[trigger] r[j],
            ) by {
                assert(before(right[i], right[j]));
            }
        }
        lemma_before_is_total(a, a);
        assert forall|name: Seq<char>| l.contains(name) <==> r.contains(name) by {
            if l.contains(name) {
                let i = choose|i: int| 0 <= i < l.len() && l[i] == name;
                assert(left[i] == name);
                assert(before(left[i], left[left.len() - 1]));
                assert(right.contains(name));
                let j = choose|j: int| 0 <= j < right.len() && right[j] == name;
                assert(j < r.len());
                assert(r[j] == name);
            }
            if r.contains(name) {
                let i = choose|i: int| 0 <= i < r.len() && r[i] == name;
                assert(right[i] == name);
                assert(before(right[i], right[right.len() - 1]));
                assert(left.contains(name));
                let j = choose|j: int| 0 <= j < left.len() && left[j] == name;
                assert(j < l.len());
                assert(l[j] == name);
            }
        }
        lemma_same_names_in_order(l, r);
        assert(left =~= l.push(a));
        assert(right =~= r.push(b));
    }
}

proof fn lemma_last_is_greatest(names: Seq<Seq<char>>)
    requires
        in_order(names),
        names.len() > 0,
    ensures
        forall|name: Seq<char>| names.contains(name) ==> name == names.last() || before(
            name,
            names.last(),
        ),
{
    assert forall|name: Seq<char>| names.contains(name) implies name == names.last() || before(
        name,
        names.last(),
    ) by {
        let i = choose|i: int| 0 <= i < names.len() && names[i] == name;
        if i < names.len() - 1 {
            assert(before(names[i], names[names.len() - 1]));
        }
    }
}

/// The values held under each name.
pub open spec fn values_under(shelf: Shelf<Vec<String>>) -> Map<Seq<char>, Seq<Seq<char>>> {
    Map::new(|name: Seq<char>| shelf.has(name), |name: Seq<char>| texts(shelf.value(name)@))
}

impl Shelf<Vec<String>> {
    /// The same values under the same names once more.
    pub fn copy_texts(&self) -> (r: Self)
        requires
            self.wf(),
        ensures
            r.wf(),
            r.names() == self.names(),
            values_under(r) == values_under(*self),
    {
        let mut pairs: Vec<(String, Vec<String>)> = Vec::new();
        let mut at: usize = 0;
        while at < self.pairs.len()
            invariant
                at <= self.pairs.len(),
                pairs@.len() == at,
                forall|i: int|
                    0 <= i < at ==> (#[trigger] pairs@[i]).0@ == self.pairs@[i].0@ && texts(
                        pairs@[i].1@,
                    ) == texts(self.pairs@[i].1@),
            decreases self.pairs.len() - at,
        {
            let pair = &self.pairs[at];
            pairs.push((pair.0.clone(), copy_texts(pair.1.as_slice())));
            at += 1;
        }
        let r = Shelf { pairs };
        proof {
            assert(r.names() =~= self.names());
            assert forall|name: Seq<char>| self.has(name) implies texts(r.value(name)@) == texts(
                self.value(name)@,
            ) by {
                let i = self.at(name);
                self.lemma_one_place(name, i);
                r.lemma_one_place(name, i);
            }
            assert(values_under(r) =~= values_under(*self));
        }
        r
    }

    /// Whether two collections hold the same values under the same names.
    pub fn same_texts(&self, other: &Self) -> (r: bool)
        requires
            self.wf(),
            other.wf(),
        ensures
            r == (values_under(*self) == values_under(*other)),
    {
        proof {
            if values_under(*self) == values_under(*other) {
                assert forall|name: Seq<char>| self.names().contains(name)
                    <==> other.names().contains(name) by {
                    assert(values_under(*self).dom().contains(name) <==> self.has(name));
                    assert(values_under(*other).dom().contains(name) <==> other.has(name));
                }
                lemma_same_names_in_order(self.names(), other.names());
                assert(self.names().len() == self.held().len());
                assert(other.names().len() == other.held().len());
            }
        }
        if self.pairs.len() != other.pairs.len() {
            return false;
        }
        let mut at: usize = 0;
        while at < self.pairs.len()
            invariant
                at <= self.pairs.len(),
                self.pairs.len() == other.pairs.len(),
                self.wf(),
                other.wf(),
                values_under(*self) == values_under(*other) ==> self.names() == other.names(),
                forall|i: int|
                    0 <= i < at ==> (#[trigger] self.pairs@[i]).0@ == other.pairs@[i].0@ && texts(
                        self.pairs@[i].1@,
                    ) == texts(other.pairs@[i].1@),
            decreases self.pairs.len() - at,
        {
            let (mine, theirs) = (&self.pairs[at], &other.pairs[at]);
            assert(self.names()[at as int] == mine.0@);
            assert(other.names()[at as int] == theirs.0@);
            proof {
                self.lemma_one_place(mine.0@, at as int);
                other.lemma_one_place(theirs.0@, at as int);
                if values_under(*self) == values_under(*other) {
                    assert(values_under(*self)[mine.0@] == texts(mine.1@));
                    assert(values_under(*other)[theirs.0@] == texts(theirs.1@));
                }
            }
            if !crate::text::same(mine.0.as_str(), theirs.0.as_str()) || !same_list(
                &mine.1,
                &theirs.1,
            ) {
                return false;
            }
            at += 1;
        }
        proof {
            assert(self.names() =~= other.names());
            assert forall|name: Seq<char>| self.has(name) implies texts(self.value(name)@)
                == texts(other.value(name)@) by {
                let i = self.at(name);
                self.lemma_one_place(name, i);
                other.lemma_one_place(name, i);
                assert(self.pairs@[i].0@ == other.pairs@[i].0@);
            }
            assert(values_under(*self) =~= values_under(*other));
        }
        true
    }
}

fn same_list(left: &Vec<String>, right: &Vec<String>) -> (r: bool)
    ensures
        r == (texts(left@) == texts(right@)),
{
    assert(texts(left@).len() == left@.len() && texts(right@).len() == right@.len());
    if left.len() != right.len() {
        return false;
    }
    let mut at: usize = 0;
    while at < left.len()
        invariant
            at <= left.len(),
            left.len() == right.len(),
            forall|i: int| 0 <= i < at ==> (#[trigger] left@[i])@ == right@[i]@,
        decreases left.len() - at,
    {
        if !crate::text::same(left[at].as_str(), right[at].as_str()) {
            assert(texts(left@)[at as int] != texts(right@)[at as int]);
            return false;
        }
        at += 1;
    }
    assert(texts(left@) =~= texts(right@));
    true
}

} // verus!
