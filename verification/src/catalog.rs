use vstd::prelude::*;

use crate::model::{Subject, SubjectID, SubjectKind, MAX_LEVEL};
use std::collections::HashMap;

verus! {

broadcast use vstd::std_specs::hash::group_hash_axioms;

/// Failure of catalog loading: the snapshot of curriculum items is
/// inconsistent.
#[derive(Clone, Copy, Debug, PartialEq, Eq, Structural)]
pub enum CatalogError {
    /// Two items carry the same identity.
    DuplicateSubject,
    /// An item names a prerequisite or dependent that is not in the
    /// snapshot.
    DanglingReference,
    /// An item's level lies outside `1..=MAX_LEVEL`.
    LevelOutOfRange,
}

/// Whether some item in `subjects` has identity `id`.
pub open spec fn has_id(subjects: Seq<Subject>, id: u16) -> bool {
    exists|i: int| 0 <= i < subjects.len() && (#[trigger] subjects[i]).id.0 == id
}

/// Whether no two items in `subjects` share an identity.
pub open spec fn ids_unique(subjects: Seq<Subject>) -> bool {
    forall|i: int, j: int|
        0 <= i < j < subjects.len() ==> (#[trigger] subjects[i]).id.0 != (
        #[trigger] subjects[j]).id.0
}

/// Whether every prerequisite and dependent named by an item of
/// `subjects` is itself an item of `subjects`.
pub open spec fn refs_closed(subjects: Seq<Subject>) -> bool {
    &&& forall|i: int, j: int|
        0 <= i < subjects.len() && 0 <= j < (#[trigger] subjects[i]).depends_on@.len() ==> has_id(
            subjects,
            (#[trigger] subjects[i].depends_on@[j]).0,
        )
    &&& forall|i: int, j: int|
        0 <= i < subjects.len() && 0 <= j < (#[trigger] subjects[i]).depended_on_by@.len()
            ==> has_id(subjects, (#[trigger] subjects[i].depended_on_by@[j]).0)
}

/// Whether every item's level lies in `1..=MAX_LEVEL`.
pub open spec fn levels_in_range(subjects: Seq<Subject>) -> bool {
    forall|i: int|
        0 <= i < subjects.len() ==> 1 <= (#[trigger] subjects[i]).level <= MAX_LEVEL
}

/// The in-memory index of all curriculum items, loaded once and
/// never mutated afterwards.
pub struct Catalog {
    pub map: HashMap<u16, Subject>,
    pub ids: Vec<SubjectID>,
}

impl Catalog {
    /// Whether the catalog holds an item with identity `id`.
    pub open spec fn contains(self, id: u16) -> bool {
        self.map@.contains_key(id)
    }

    /// The item with identity `id`.
    pub open spec fn subject(self, id: u16) -> Subject {
        self.map@[id]
    }

    /// Internal consistency: `ids` lists the mapping's domain without
    /// repetition, every item is stored under its own identity, every
    /// reference stays inside the catalog, and every level is in
    /// range.
    pub open spec fn wf(self) -> bool {
        &&& self.map@.dom().len() <= 0x10000
        &&& self.ids@.len() <= 0x10000
        &&& forall|i: int, j: int|
            0 <= i < j < self.ids@.len() ==> (#[trigger] self.ids@[i]).0 != (
            #[trigger] self.ids@[j]).0
        &&& forall|i: int| 0 <= i < self.ids@.len() ==> self.contains((#[trigger] self.ids@[i]).0)
        &&& forall|k: u16|
            #[trigger] self.contains(k) ==> exists|i: int|
                0 <= i < self.ids@.len() && (#[trigger] self.ids@[i]).0 == k
        &&& forall|k: u16|
            #[trigger] self.contains(k) ==> {
                &&& self.subject(k).id.0 == k
                &&& 1 <= self.subject(k).level <= MAX_LEVEL
                &&& forall|j: int|
                    0 <= j < self.subject(k).depends_on@.len() ==> self.contains(
                        (#[trigger] self.subject(k).depends_on@[j]).0,
                    )
                &&& forall|j: int|
                    0 <= j < self.subject(k).depended_on_by@.len() ==> self.contains(
                        (#[trigger] self.subject(k).depended_on_by@[j]).0,
                    )
            }
    }

    /// Looks an item up by identity.
    pub fn get(&self, id: u16) -> (r: Option<&Subject>)
        ensures
            r is Some <==> self.contains(id),
            r matches Some(s) ==> *s == self.subject(id),
    {
        self.map.get(&id)
    }
}

/// Indexes the curriculum items by identity. Succeeds exactly when
/// no identity repeats, every named prerequisite or dependent is
/// itself in the list, and every level is in range; the catalog then
/// holds exactly the given items.
#[verifier::loop_isolation(false)]
pub fn load_subjects(subjects: Vec<Subject>) -> (r: Result<Catalog, CatalogError>)
    requires
        subjects@.len() <= 0x10000,
    ensures
        r is Ok <==> ids_unique(subjects@) && refs_closed(subjects@) && levels_in_range(subjects@),
        r matches Ok(c) ==> {
            &&& c.wf()
            &&& c.ids@.len() == subjects@.len()
            &&& forall|i: int| 0 <= i < subjects@.len() ==> (#[trigger] c.ids@[i]) == subjects@[i].id
            &&& forall|i: int|
                0 <= i < subjects@.len() ==> c.contains((#[trigger] subjects@[i]).id.0)
                    && c.subject(subjects@[i].id.0) == subjects@[i]
            &&& forall|k: u16| #[trigger] c.contains(k) ==> has_id(subjects@, k)
        },
{
    let mut subjects = subjects;
    let ghost orig = subjects@;
    let n = subjects.len();
    let mut ids: Vec<SubjectID> = Vec::new();
    let mut i: usize = 0;
    while i < n
        invariant
            0 <= i <= n,
            n == subjects@.len(),
            subjects@ == orig,
            ids@.len() == i,
            forall|t: int| 0 <= t < i ==> (#[trigger] ids@[t]) == orig[t].id,
        decreases n - i,
    {
        ids.push(subjects[i].id);
        i = i + 1;
    }

    // Index the items by identity, consuming the list from the end.
    let mut map: HashMap<u16, Subject> = HashMap::new();
    while subjects.len() > 0
        invariant
            n == orig.len(),
            subjects@ == orig.take(subjects@.len() as int),
            map@.dom().len() <= n - subjects@.len(),
            forall|k: u16|
                #[trigger] map@.contains_key(k) <==> exists|t: int|
                    subjects@.len() <= t < n && (#[trigger] orig[t]).id.0 == k,
            forall|t: int|
                subjects@.len() <= t < n ==> map@.contains_key((#[trigger] orig[t]).id.0)
                    && map@[orig[t].id.0] == orig[t],
            forall|t: int, u: int|
                subjects@.len() <= t < u < n ==> (#[trigger] orig[t]).id.0 != (
                #[trigger] orig[u]).id.0,
            forall|t: int| subjects@.len() <= t < n ==> 1 <= (#[trigger] orig[t]).level <= MAX_LEVEL,
        decreases subjects@.len(),
    {
        let ghost len0 = subjects@.len() as int;
        let s = match subjects.pop() {
            Some(s) => s,
            None => {
                proof {
                    assert(false);
                }
                return Err(CatalogError::DuplicateSubject);
            },
        };
        proof {
            assert(s == orig[len0 - 1]);
            assert(subjects@ =~= orig.take(len0 - 1));
        }
        if map.contains_key(&s.id.0) {
            proof {
                assert(map@.contains_key(s.id.0));
                assert(exists|t: int| len0 <= t < n && (#[trigger] orig[t]).id.0 == s.id.0);
                let w = choose|t: int| len0 <= t < n && (#[trigger] orig[t]).id.0 == s.id.0;
                assert(orig[len0 - 1].id.0 == orig[w].id.0);
                assert(!ids_unique(orig));
            }
            return Err(CatalogError::DuplicateSubject);
        }
        if s.level < 1 || s.level > MAX_LEVEL {
            proof {
                assert(!(1 <= orig[len0 - 1].level <= MAX_LEVEL));
                assert(!levels_in_range(orig));
            }
            return Err(CatalogError::LevelOutOfRange);
        }
        map.insert(s.id.0, s);
    }

    // Every identity is now indexed; check that references stay
    // inside the snapshot.
    proof {
        assert forall|k: u16| #[trigger] map@.contains_key(k) <==> has_id(orig, k) by {}
    }
    let mut t: usize = 0;
    while t < n
        invariant
            0 <= t <= n,
            n == orig.len(),
            ids@.len() == n,
            forall|u: int| 0 <= u < n ==> (#[trigger] ids@[u]) == orig[u].id,
            forall|k: u16| #[trigger] map@.contains_key(k) <==> has_id(orig, k),
            forall|u: int|
                0 <= u < n ==> map@.contains_key((#[trigger] orig[u]).id.0)
                    && map@[orig[u].id.0] == orig[u],
            forall|u: int, j: int|
                0 <= u < t && 0 <= j < (#[trigger] orig[u]).depends_on@.len() ==> has_id(
                    orig,
                    (#[trigger] orig[u].depends_on@[j]).0,
                ),
            forall|u: int, j: int|
                0 <= u < t && 0 <= j < (#[trigger] orig[u]).depended_on_by@.len() ==> has_id(
                    orig,
                    (#[trigger] orig[u].depended_on_by@[j]).0,
                ),
        decreases n - t,
    {
        let id = ids[t];
        let subject = match map.get(&id.0) {
            Some(s) => s,
            None => {
                proof {
                    assert(false);
                }
                return Err(CatalogError::DanglingReference);
            },
        };
        proof {
            assert(*subject == orig[t as int]);
        }
        let mut j: usize = 0;
        let dn = subject.depends_on.len();
        while j < dn
            invariant
                0 <= j <= dn,
                dn == subject.depends_on@.len(),
                *subject == orig[t as int],
                0 <= t < orig.len(),
                forall|k: u16| #[trigger] map@.contains_key(k) <==> has_id(orig, k),
                forall|u: int|
                    0 <= u < j ==> has_id(orig, (#[trigger] subject.depends_on@[u]).0),
            decreases dn - j,
        {
            if !map.contains_key(&subject.depends_on[j].0) {
                proof {
                    assert(!has_id(orig, orig[t as int].depends_on@[j as int].0));
                    assert(!refs_closed(orig));
                }
                return Err(CatalogError::DanglingReference);
            }
            j = j + 1;
        }
        let mut j2: usize = 0;
        let db = subject.depended_on_by.len();
        while j2 < db
            invariant
                0 <= j2 <= db,
                db == subject.depended_on_by@.len(),
                *subject == orig[t as int],
                0 <= t < orig.len(),
                forall|k: u16| #[trigger] map@.contains_key(k) <==> has_id(orig, k),
                forall|u: int|
                    0 <= u < j2 ==> has_id(orig, (#[trigger] subject.depended_on_by@[u]).0),
            decreases db - j2,
        {
            if !map.contains_key(&subject.depended_on_by[j2].0) {
                proof {
                    assert(!has_id(orig, orig[t as int].depended_on_by@[j2 as int].0));
                    assert(!refs_closed(orig));
                }
                return Err(CatalogError::DanglingReference);
            }
            j2 = j2 + 1;
        }
        t = t + 1;
    }

    let catalog = Catalog { map, ids };
    proof {
        assert forall|k: u16| #[trigger] catalog.contains(k) implies {
            &&& catalog.subject(k).id.0 == k
            &&& 1 <= catalog.subject(k).level <= MAX_LEVEL
            &&& forall|j: int|
                0 <= j < catalog.subject(k).depends_on@.len() ==> catalog.contains(
                    (#[trigger] catalog.subject(k).depends_on@[j]).0,
                )
            &&& forall|j: int|
                0 <= j < catalog.subject(k).depended_on_by@.len() ==> catalog.contains(
                    (#[trigger] catalog.subject(k).depended_on_by@[j]).0,
                )
        } by {
            let w = choose|i: int| 0 <= i < orig.len() && (#[trigger] orig[i]).id.0 == k;
            assert(catalog.subject(k) == orig[w]);
        }
        assert forall|k: u16| #[trigger] catalog.contains(k) implies exists|i: int|
            0 <= i < catalog.ids@.len() && (#[trigger] catalog.ids@[i]).0 == k by {
            let w = choose|i: int| 0 <= i < orig.len() && (#[trigger] orig[i]).id.0 == k;
            assert(catalog.ids@[w].0 == k);
        }
    }
    Ok(catalog)
}

/// The identities in `c.ids` up to position `k` whose subject sits at
/// `level`, in catalog order.
pub open spec fn level_ids_upto(c: Catalog, level: u8, k: int) -> Seq<SubjectID>
    decreases k,
{
    if k <= 0 {
        Seq::empty()
    } else {
        let p = level_ids_upto(c, level, k - 1);
        if c.subject(c.ids@[k - 1].0).level == level {
            p.push(c.ids@[k - 1])
        } else {
            p
        }
    }
}

/// All identities of subjects at `level`, in catalog order.
pub open spec fn level_ids(c: Catalog, level: u8) -> Seq<SubjectID> {
    level_ids_upto(c, level, c.ids@.len() as int)
}

/// The identities in `s` up to position `k` whose subject is of the
/// level-gating kind.
pub open spec fn kanji_ids_upto(c: Catalog, s: Seq<SubjectID>, k: int) -> Seq<SubjectID>
    decreases k,
{
    if k <= 0 {
        Seq::empty()
    } else {
        let p = kanji_ids_upto(c, s, k - 1);
        if c.subject(s[k - 1].0).kind == SubjectKind::Kanji {
            p.push(s[k - 1])
        } else {
            p
        }
    }
}

/// The subsequence of `s` of the level-gating kind.
pub open spec fn kanji_ids(c: Catalog, s: Seq<SubjectID>) -> Seq<SubjectID> {
    kanji_ids_upto(c, s, s.len() as int)
}

/// Every member of `level_ids_upto` is a catalog member at the given
/// level, taken from the identity list below `k`.
pub proof fn lemma_level_ids_membership(c: Catalog, level: u8, k: int)
    requires
        c.wf(),
        0 <= k <= c.ids@.len(),
    ensures
        level_ids_upto(c, level, k).len() <= k,
        forall|x: int|
            0 <= x < level_ids_upto(c, level, k).len() ==> {
                let id = #[trigger] level_ids_upto(c, level, k)[x];
                &&& c.contains(id.0)
                &&& c.subject(id.0).level == level
                &&& exists|i: int| 0 <= i < k && (#[trigger] c.ids@[i]) == id
            },
        forall|i: int|
            0 <= i < k && c.subject((#[trigger] c.ids@[i]).0).level == level ==> level_ids_upto(
                c,
                level,
                k,
            ).contains(c.ids@[i]),
    decreases k,
{
    if k > 0 {
        lemma_level_ids_membership(c, level, k - 1);
        assert forall|i: int|
            0 <= i < k && c.subject((#[trigger] c.ids@[i]).0).level == level implies level_ids_upto(
            c,
            level,
            k,
        ).contains(c.ids@[i]) by {
            if i < k - 1 {
                let p = level_ids_upto(c, level, k - 1);
                let w = choose|x: int| 0 <= x < p.len() && p[x] == c.ids@[i];
                assert(level_ids_upto(c, level, k)[w] == c.ids@[i]);
            } else {
                let q = level_ids_upto(c, level, k);
                assert(q[q.len() - 1] == c.ids@[i]);
            }
        }
    }
}

/// Every member of `kanji_ids_upto` is a member of `s` of the gating
/// kind, and every gating member of `s` is kept.
pub proof fn lemma_kanji_ids_membership(c: Catalog, s: Seq<SubjectID>, k: int)
    requires
        0 <= k <= s.len(),
    ensures
        kanji_ids_upto(c, s, k).len() <= k,
        forall|x: int|
            0 <= x < kanji_ids_upto(c, s, k).len() ==> {
                let id = #[trigger] kanji_ids_upto(c, s, k)[x];
                &&& c.subject(id.0).kind == SubjectKind::Kanji
                &&& exists|i: int| 0 <= i < k && s[i] == id
            },
        forall|i: int|
            0 <= i < k && c.subject((#[trigger] s[i]).0).kind == SubjectKind::Kanji
                ==> kanji_ids_upto(c, s, k).contains(s[i]),
    decreases k,
{
    if k > 0 {
        lemma_kanji_ids_membership(c, s, k - 1);
        assert forall|i: int|
            0 <= i < k && c.subject((#[trigger] s[i]).0).kind == SubjectKind::Kanji
            implies kanji_ids_upto(c, s, k).contains(s[i]) by {
            if i < k - 1 {
                let p = kanji_ids_upto(c, s, k - 1);
                let w = choose|x: int| 0 <= x < p.len() && p[x] == s[i];
                assert(kanji_ids_upto(c, s, k)[w] == s[i]);
            } else {
                let q = kanji_ids_upto(c, s, k);
                assert(q[q.len() - 1] == s[i]);
            }
        }
    }
}

/// All identities of subjects at `level`, in catalog order.
pub fn subjects_with_level(c: &Catalog, level: u8) -> (r: Vec<SubjectID>)
    requires
        c.wf(),
    ensures
        r@ == level_ids(*c, level),
{
    let mut r: Vec<SubjectID> = Vec::new();
    let mut i: usize = 0;
    let n = c.ids.len();
    while i < n
        invariant
            0 <= i <= n,
            n == c.ids@.len(),
            c.wf(),
            r@ == level_ids_upto(*c, level, i as int),
        decreases n - i,
    {
        let id = c.ids[i];
        match c.get(id.0) {
            Some(subject) => {
                if subject.level == level {
                    r.push(id);
                }
            },
            None => {
                proof {
                    assert(false);
                }
            },
        }
        i = i + 1;
    }
    r
}

/// The subsequence of `s` of the level-gating kind, in order.
pub fn filter_kanji(c: &Catalog, s: &Vec<SubjectID>) -> (r: Vec<SubjectID>)
    requires
        c.wf(),
        forall|i: int| 0 <= i < s@.len() ==> c.contains((#[trigger] s@[i]).0),
    ensures
        r@ == kanji_ids(*c, s@),
{
    let mut r: Vec<SubjectID> = Vec::new();
    let mut i: usize = 0;
    let n = s.len();
    while i < n
        invariant
            0 <= i <= n,
            n == s@.len(),
            c.wf(),
            forall|t: int| 0 <= t < s@.len() ==> c.contains((#[trigger] s@[t]).0),
            r@ == kanji_ids_upto(*c, s@, i as int),
        decreases n - i,
    {
        let id = s[i];
        match c.get(id.0) {
            Some(subject) => {
                if subject.kind == SubjectKind::Kanji {
                    r.push(id);
                }
            },
            None => {
                proof {
                    assert(false);
                }
            },
        }
        i = i + 1;
    }
    r
}

} // verus!
