use std::collections::HashSet;
use vstd::prelude::*;
use vstd::string::*;
use crate::component::{lemma_row_of, row_of, swap_removed, unique_ids, Component};
use crate::entity::Entity;
use crate::error::EcsError;
use crate::hash::{get, text_hash};

verus! {

broadcast use vstd::std_specs::hash::group_hash_axioms;

/// The decimal digit `d`, for `d < 10`.
pub open spec fn digit_char(d: nat) -> char {
    seq!['0', '1', '2', '3', '4', '5', '6', '7', '8', '9'][d as int]
}

/// The decimal digits of `n`, without leading zeros.
pub open spec fn decimal(n: nat) -> Seq<char>
    decreases n,
{
    if n < 10 {
        seq![digit_char(n)]
    } else {
        decimal(n / 10) + seq![digit_char(n % 10)]
    }
}

/// The `k`-th name tried for a proposed name: the name itself, then the name
/// followed by `_0`, `_1`, `_2`, ...
pub open spec fn candidate(name: Seq<char>, k: nat) -> Seq<char> {
    if k == 0 {
        name
    } else {
        name + seq!['_'] + decimal((k - 1) as nat)
    }
}

/// The `k`-th candidate is the first whose hash has not been issued, among
/// the candidates tried (fewer than `u64::MAX`).
pub open spec fn first_free(issued: Set<u64>, name: Seq<char>, k: nat) -> bool {
    &&& k < u64::MAX
    &&& !issued.contains(text_hash(candidate(name, k)))
    &&& forall|j: nat| j < k ==> issued.contains(#[trigger] text_hash(candidate(name, j)))
}

/// Two names given one after the other never share a hash: the second is
/// chosen among hashes not issued, and the first one's hash has been issued.
/// Given the same proposed name, the second takes a later candidate.
pub proof fn lemma_successive_names_differ(
    issued: Set<u64>,
    a: Seq<char>,
    ka: nat,
    b: Seq<char>,
    kb: nat,
)
    requires
        first_free(issued, a, ka),
        first_free(issued.insert(text_hash(candidate(a, ka))), b, kb),
    ensures
        text_hash(candidate(b, kb)) != text_hash(candidate(a, ka)),
        a == b ==> kb > ka,
{
    if a == b && kb <= ka {
        if kb < ka {
            assert(issued.contains(text_hash(candidate(a, kb))));
        }
    }
}

/// The tag names held in one row's tag list.
pub open spec fn tag_names(v: Seq<(u64, String)>) -> Set<Seq<char>> {
    Set::new(|t: Seq<char>| exists|j: int| 0 <= j < v.len() && v[j].1@ == t)
}

/// A row's tag list holds each name once, next to its hash.
pub open spec fn tags_wf(v: Seq<(u64, String)>) -> bool {
    &&& forall|j: int| 0 <= j < v.len() ==> (#[trigger] v[j]).0 == text_hash(v[j].1@)
    &&& forall|j: int, k: int| 0 <= j < v.len() && 0 <= k < v.len() && j != k ==> v[j].1@ != v[k].1@
}

/// Relies on `ToString` for `u64` (through its `Display`): the decimal digits
/// of the value, with no sign and no leading zeros.
#[verifier::external_body]
fn decimal_text(n: u64) -> (r: String)
    ensures
        r@ == decimal(n as nat),
{
    n.to_string()
}

/// The place of the tag `name` in a row's tag list, if it is there.
fn tag_position(v: &Vec<(u64, String)>, name: &String) -> (r: Option<usize>)
    ensures
        match r {
            Some(j) => j < v@.len() && v@[j as int].1@ == name@,
            None => !tag_names(v@).contains(name@),
        },
{
    let mut j: usize = 0;
    while j < v.len()
        invariant
            j <= v@.len(),
            forall|k: int| 0 <= k < j ==> v@[k].1@ != name@,
        decreases v@.len() - j,
    {
        if v[j].1 == *name {
            return Some(j);
        }
        j = j + 1;
    }
    None
}

/// Names and tags: per row, the entity, its name with the name's hash, and a
/// set of tags; beside them, every name hash issued so far.
pub struct NameComponent {
    component: Component,
    names: Vec<(u64, String)>,
    tags: Vec<Vec<(u64, String)>>,
    hash_list: HashSet<u64>,
}

impl NameComponent {
    /// The entity of each row.
    pub closed spec fn entities(&self) -> Seq<Entity> {
        self.component@
    }

    /// The hash and the text of each row's name.
    pub closed spec fn names(&self) -> Seq<(u64, Seq<char>)> {
        Seq::new(self.names@.len(), |i: int| (self.names@[i].0, self.names@[i].1@))
    }

    /// The tag names of each row.
    pub closed spec fn tags(&self) -> Seq<Set<Seq<char>>> {
        Seq::new(self.tags@.len(), |i: int| tag_names(self.tags@[i]@))
    }

    /// The name hashes issued and not yet released.
    pub closed spec fn issued(&self) -> Set<u64> {
        self.hash_list@
    }

    pub closed spec fn wf(&self) -> bool {
        &&& self.component.wf()
        &&& self.names@.len() == self.component@.len()
        &&& self.tags@.len() == self.component@.len()
        &&& forall|i: int| 0 <= i < self.tags@.len() ==> tags_wf(#[trigger] self.tags@[i]@)
    }

    /// The columns of a well-formed store have one entry per row, and no
    /// entity has two rows.
    pub proof fn lemma_unique(&self)
        requires
            self.wf(),
        ensures
            self.names().len() == self.entities().len(),
            self.tags().len() == self.entities().len(),
            unique_ids(self.entities()),
    {
        self.component.lemma_unique();
    }

    /// An empty store in which only the hash `0`, that of an unnamed row, is
    /// issued.
    pub fn new() -> (r: NameComponent)
        ensures
            r.wf(),
            r.entities() == Seq::<Entity>::empty(),
            r.issued() == set![0u64],
    {
        let mut hash_list = HashSet::new();
        hash_list.insert(0);
        proof {
            assert(hash_list@ =~= set![0u64]);
        }
        NameComponent { component: Component::new(), names: Vec::new(), tags: Vec::new(), hash_list }
    }

    /// The number of rows.
    pub fn len(&self) -> (r: usize)
        requires
            self.wf(),
        ensures
            r == self.entities().len(),
    {
        self.component.len()
    }

    /// The row that holds `entity`, if any.
    pub fn find_index(&self, entity: &Entity) -> (r: Option<usize>)
        requires
            self.wf(),
        ensures
            match r {
                Some(i) => i < self.entities().len() && self.entities()[i as int] == *entity,
                None => !self.entities().contains(*entity),
            },
    {
        self.component.find_index(entity)
    }

    /// Whether `entity` has a row.
    pub fn does_exist(&self, entity: &Entity) -> (r: bool)
        requires
            self.wf(),
        ensures
            r == self.entities().contains(*entity),
    {
        self.component.does_exist(entity)
    }

    /// Whether no entity is attached.
    pub fn is_empty(&self) -> (r: bool)
        requires
            self.wf(),
        ensures
            r == (self.entities().len() == 0),
    {
        self.component.len() == 0
    }

    /// Adds a row for `entity`, unnamed (hash `0`, empty text) and untagged.
    pub fn attach(&mut self, entity: Entity) -> (r: Result<usize, EcsError>)
        requires
            old(self).wf(),
            old(self).entities().len() < usize::MAX,
        ensures
            final(self).wf(),
            old(self).entities().contains(entity) ==> r == Err::<usize, EcsError>(
                EcsError::AlreadyExists,
            ) && *final(self) == *old(self),
            !old(self).entities().contains(entity) ==> {
                &&& r == Ok::<usize, EcsError>(old(self).entities().len() as usize)
                &&& final(self).entities() == old(self).entities().push(entity)
                &&& final(self).names() == old(self).names().push((0u64, Seq::<char>::empty()))
                &&& final(self).tags() == old(self).tags().push(Set::<Seq<char>>::empty())
                &&& final(self).issued() == old(self).issued()
            },
    {
        if self.component.does_exist(&entity) {
            return Err(EcsError::AlreadyExists);
        }
        let index = self.component.push(entity);
        self.names.push((0, String::new()));
        self.tags.push(Vec::new());
        proof {
            assert(self.names() =~= old(self).names().push((0u64, Seq::<char>::empty())));
            assert(tag_names(Seq::<(u64, String)>::empty()) =~= Set::<Seq<char>>::empty());
            assert(self.tags() =~= old(self).tags().push(Set::<Seq<char>>::empty()));
        }
        Ok(index)
    }

    /// Removes the row of `entity` by moving the last row into its slot, and
    /// releases the hash of its name.
    pub fn detach(&mut self, entity: Entity) -> (r: Result<(), EcsError>)
        requires
            old(self).wf(),
        ensures
            final(self).wf(),
            !old(self).entities().contains(entity) ==> r == Err::<(), EcsError>(
                EcsError::NotFound,
            ) && *final(self) == *old(self),
            old(self).entities().contains(entity) ==> {
                let i = row_of(old(self).entities(), entity);
                &&& r == Ok::<(), EcsError>(())
                &&& final(self).entities() == swap_removed(old(self).entities(), i)
                &&& final(self).names() == swap_removed(old(self).names(), i)
                &&& final(self).tags() == swap_removed(old(self).tags(), i)
                &&& final(self).issued() == old(self).issued().remove(old(self).names()[i].0)
            },
    {
        let found = self.component.find_index(&entity);
        let index = match found {
            Some(i) => i,
            None => { return Err(EcsError::NotFound); },
        };
        proof {
            self.component.lemma_unique();
            lemma_row_of(self.component@, index as int);
        }
        let hash = self.names[index].0;
        self.hash_list.remove(&hash);
        self.component.swap_remove(&entity);
        self.names.swap_remove(index);
        self.tags.swap_remove(index);
        proof {
            assert(self.names() =~= swap_removed(old(self).names(), index as int));
            assert(self.tags() =~= swap_removed(old(self).tags(), index as int));
            assert forall|i: int| 0 <= i < self.tags@.len() implies tags_wf(
                #[trigger] self.tags@[i]@,
            ) by {
                if i == index {
                    assert(self.tags@[i] == old(self).tags@[old(self).tags@.len() - 1]);
                } else {
                    assert(self.tags@[i] == old(self).tags@[i]);
                }
            }
        }
        Ok(())
    }

    /// The hash and text of the name of row `index`.
    pub fn get_name(&self, index: usize) -> (r: Option<&(u64, String)>)
        requires
            self.wf(),
        ensures
            index >= self.entities().len() ==> r.is_none(),
            index < self.entities().len() ==> r.is_some() && r.unwrap().0 == self.names()[
                index as int
            ].0 && r.unwrap().1@ == self.names()[index as int].1,
    {
        if !self.component.bounds_check(index) {
            return None;
        }
        Some(&self.names[index])
    }

    /// The tags of row `index`, each next to its hash.
    pub fn get_tags(&self, index: usize) -> (r: Option<&Vec<(u64, String)>>)
        requires
            self.wf(),
        ensures
            index >= self.entities().len() ==> r.is_none(),
            index < self.entities().len() ==> r.is_some() && tag_names(r.unwrap()@)
                == self.tags()[index as int] && tags_wf(r.unwrap()@),
    {
        if !self.component.bounds_check(index) {
            return None;
        }
        Some(&self.tags[index])
    }

    /// Tags row `index` with `name`; false where the row does not exist or
    /// already has that tag.
    pub fn add_tag(&mut self, index: usize, name: String) -> (r: bool)
        requires
            old(self).wf(),
        ensures
            final(self).wf(),
            r == (index < old(self).entities().len() && !old(self).tags()[index as int].contains(
                name@,
            )),
            final(self).entities() == old(self).entities(),
            final(self).names() == old(self).names(),
            final(self).issued() == old(self).issued(),
            r ==> final(self).tags() == old(self).tags().update(
                index as int,
                old(self).tags()[index as int].insert(name@),
            ),
            !r ==> final(self).tags() == old(self).tags(),
    {
        if !self.component.bounds_check(index) {
            return false;
        }
        match tag_position(&self.tags[index], &name) {
            Some(_) => false,
            None => {
                let hash = get(name.as_str());
                let ghost old_row = self.tags@[index as int]@;
                self.tags[index].push((hash, name));
                proof {
                    let row = self.tags@[index as int]@;
                    assert(row == old_row.push((hash, name)));
                    assert(tag_names(row) =~= tag_names(old_row).insert(name@)) by {
                        assert(row[old_row.len() as int].1@ == name@);
                        assert forall|t: Seq<char>| tag_names(old_row).contains(t) implies tag_names(row).contains(t) by {
                            let j = choose|j: int| 0 <= j < old_row.len() && old_row[j].1@ == t;
                            assert(row[j] == old_row[j]);
                        }
                        assert forall|t: Seq<char>| tag_names(row).contains(t) implies tag_names(old_row).insert(name@).contains(t) by {
                            let j = choose|j: int| 0 <= j < row.len() && row[j].1@ == t;
                            if j < old_row.len() {
                                assert(row[j] == old_row[j]);
                            }
                        }
                    }
                    assert(tags_wf(row)) by {
                        assert forall|j: int, k: int| 0 <= j < row.len() && 0 <= k < row.len() && j != k implies row[j].1@ != row[k].1@ by {
                            if j == old_row.len() {
                                assert(!tag_names(old_row).contains(name@));
                                assert(row[k] == old_row[k]);
                            } else if k == old_row.len() {
                                assert(row[j] == old_row[j]);
                            } else {
                                assert(row[j] == old_row[j]);
                                assert(row[k] == old_row[k]);
                            }
                        }
                    }
                    assert(self.tags() =~= old(self).tags().update(
                        index as int,
                        old(self).tags()[index as int].insert(name@),
                    ));
                }
                true
            },
        }
    }

    /// Takes the tag `name` off row `index`; false where the row does not
    /// exist or does not have that tag.
    pub fn remove_tag(&mut self, index: usize, name: String) -> (r: bool)
        requires
            old(self).wf(),
        ensures
            final(self).wf(),
            r == (index < old(self).entities().len() && old(self).tags()[index as int].contains(
                name@,
            )),
            final(self).entities() == old(self).entities(),
            final(self).names() == old(self).names(),
            final(self).issued() == old(self).issued(),
            r ==> final(self).tags() == old(self).tags().update(
                index as int,
                old(self).tags()[index as int].remove(name@),
            ),
            !r ==> final(self).tags() == old(self).tags(),
    {
        if !self.component.bounds_check(index) {
            return false;
        }
        match tag_position(&self.tags[index], &name) {
            None => false,
            Some(j) => {
                let ghost old_row = self.tags@[index as int]@;
                self.tags[index].swap_remove(j);
                proof {
                    let row = self.tags@[index as int]@;
                    let last = old_row.len() - 1;
                    assert(row == swap_removed(old_row, j as int));
                    assert forall|a: int| 0 <= a < row.len() implies row[a] == old_row[
                        if a == j { last } else { a }
                    ] by {}
                    assert(tag_names(row) =~= tag_names(old_row).remove(name@)) by {
                        assert forall|t: Seq<char>| tag_names(row).contains(t) implies tag_names(old_row).remove(name@).contains(t) by {
                            let a = choose|a: int| 0 <= a < row.len() && row[a].1@ == t;
                            let oa = if a == j { last } else { a };
                            assert(row[a] == old_row[oa]);
                            assert(oa != j);
                        }
                        assert forall|t: Seq<char>| tag_names(old_row).remove(name@).contains(t) implies tag_names(row).contains(t) by {
                            let b = choose|b: int| 0 <= b < old_row.len() && old_row[b].1@ == t;
                            assert(b != j);
                            if b == last {
                                assert(row[j as int] == old_row[b]);
                            } else {
                                assert(row[b] == old_row[b]);
                            }
                        }
                    }
                    assert(tags_wf(row)) by {
                        assert forall|a: int, b: int| 0 <= a < row.len() && 0 <= b < row.len() && a != b implies row[a].1@ != row[b].1@ by {
                            let oa = if a == j { last } else { a };
                            let ob = if b == j { last } else { b };
                            assert(row[a] == old_row[oa]);
                            assert(row[b] == old_row[ob]);
                        }
                    }
                    assert(self.tags() =~= old(self).tags().update(
                        index as int,
                        old(self).tags()[index as int].remove(name@),
                    ));
                }
                true
            },
        }
    }

    /// Whether row `index` exists and has the tag `name`.
    pub fn has_tag(&self, index: usize, name: String) -> (r: bool)
        requires
            self.wf(),
        ensures
            r == (index < self.entities().len() && self.tags()[index as int].contains(name@)),
    {
        if !self.component.bounds_check(index) {
            return false;
        }
        tag_position(&self.tags[index], &name).is_some()
    }

    /// The first candidate for `name` whose hash has not been issued, with
    /// that hash; `None` where every candidate tried is taken.
    pub fn hash_name(&self, name: &String) -> (r: Option<(u64, String)>)
        ensures
            match r {
                Some(pair) => exists|k: nat|
                    first_free(self.issued(), name@, k) && pair.0 == text_hash(candidate(name@, k))
                        && pair.1@ == candidate(name@, k),
                None => forall|k: nat|
                    k < u64::MAX ==> self.issued().contains(#[trigger] text_hash(candidate(name@, k))),
            },
    {
        let mut k: u64 = 0;
        let mut text = name.clone();
        let mut hash = get(text.as_str());
        while self.hash_list.contains(&hash)
            invariant
                k < u64::MAX,
                text@ == candidate(name@, k as nat),
                hash == text_hash(text@),
                forall|j: nat| j < k ==> self.hash_list@.contains(#[trigger] text_hash(candidate(name@, j))),
            decreases u64::MAX - k,
        {
            if k == u64::MAX - 1 {
                proof {
                    assert forall|j: nat| j < u64::MAX implies self.issued().contains(
                        #[trigger] text_hash(candidate(name@, j)),
                    ) by {
                        if j < k {
                        } else {
                            assert(j == k);
                        }
                    }
                }
                return None;
            }
            let mut next = name.clone();
            next.append("_");
            let digits = decimal_text(k);
            next.append(digits.as_str());
            proof {
                reveal_strlit("_");
                assert(next@ =~= candidate(name@, (k + 1) as nat));
                assert forall|j: nat| j < k + 1 implies self.hash_list@.contains(#[trigger] text_hash(candidate(name@, j))) by {
                    if j == k {
                    }
                }
            }
            k = k + 1;
            text = next;
            hash = get(text.as_str());
        }
        Some((hash, text))
    }

    /// Names row `index` after `name`: the first candidate whose hash has not
    /// been issued is stored with that hash, and the hash becomes issued.
    /// Hashes of earlier names of the row stay issued. False, with nothing
    /// changed, where the row does not exist or every candidate is taken.
    pub fn set_name(&mut self, index: usize, name: String) -> (r: bool)
        requires
            old(self).wf(),
        ensures
            final(self).wf(),
            final(self).entities() == old(self).entities(),
            final(self).tags() == old(self).tags(),
            r == (index < old(self).entities().len() && exists|k: nat|
                first_free(old(self).issued(), name@, k)),
            r ==> exists|k: nat|
                {
                    &&& first_free(old(self).issued(), name@, k)
                    &&& final(self).names() == old(self).names().update(
                        index as int,
                        (text_hash(candidate(name@, k)), candidate(name@, k)),
                    )
                    &&& final(self).issued() == old(self).issued().insert(
                        text_hash(candidate(name@, k)),
                    )
                },
            !r ==> *final(self) == *old(self),
    {
        if !self.component.bounds_check(index) {
            return false;
        }
        match self.hash_name(&name) {
            None => false,
            Some(pair) => {
                let ghost k = choose|k: nat|
                    first_free(old(self).issued(), name@, k) && pair.0 == text_hash(
                        candidate(name@, k),
                    ) && pair.1@ == candidate(name@, k);
                self.hash_list.insert(pair.0);
                self.names.set(index, pair);
                proof {
                    assert(self.names() =~= old(self).names().update(
                        index as int,
                        (text_hash(candidate(name@, k)), candidate(name@, k)),
                    ));
                    assert(self.tags() =~= old(self).tags());
                }
                true
            },
        }
    }
}

} // verus!
