use vstd::prelude::*;
use vstd::string::StrSliceExecFns;

verus! {

/// Number of distinct spaced-repetition stages, from the initial
/// not-yet-started state through the terminal retired state.
pub const NUM_STAGES: usize = 10;

/// Highest curriculum level.
pub const MAX_LEVEL: u8 = 60;

/// One of the ten ordered mastery stages a subject moves through.
#[derive(Clone, Copy, Debug, PartialEq, Eq, Structural)]
pub enum Stage {
    Initiate,
    Apprentice1,
    Apprentice2,
    Apprentice3,
    Apprentice4,
    Guru1,
    Guru2,
    Master,
    Enlightened,
    Burned,
}

impl Stage {
    /// Position of the stage in the total order, `0` for `Initiate`
    /// up to `9` for `Burned`.
    pub open spec fn idx(self) -> int {
        match self {
            Stage::Initiate => 0,
            Stage::Apprentice1 => 1,
            Stage::Apprentice2 => 2,
            Stage::Apprentice3 => 3,
            Stage::Apprentice4 => 4,
            Stage::Guru1 => 5,
            Stage::Guru2 => 6,
            Stage::Master => 7,
            Stage::Enlightened => 8,
            Stage::Burned => 9,
        }
    }

    /// The stage whose position is `i`.
    pub open spec fn spec_from_idx(i: int) -> Stage {
        if i == 0 {
            Stage::Initiate
        } else if i == 1 {
            Stage::Apprentice1
        } else if i == 2 {
            Stage::Apprentice2
        } else if i == 3 {
            Stage::Apprentice3
        } else if i == 4 {
            Stage::Apprentice4
        } else if i == 5 {
            Stage::Guru1
        } else if i == 6 {
            Stage::Guru2
        } else if i == 7 {
            Stage::Master
        } else if i == 8 {
            Stage::Enlightened
        } else {
            Stage::Burned
        }
    }

    /// Executable counterpart of `idx`.
    pub fn index(self) -> (r: u8)
        ensures
            r as int == self.idx(),
    {
        match self {
            Stage::Initiate => 0,
            Stage::Apprentice1 => 1,
            Stage::Apprentice2 => 2,
            Stage::Apprentice3 => 3,
            Stage::Apprentice4 => 4,
            Stage::Guru1 => 5,
            Stage::Guru2 => 6,
            Stage::Master => 7,
            Stage::Enlightened => 8,
            Stage::Burned => 9,
        }
    }

    /// Decodes the external store's numeric stage code; every code
    /// outside `0..10` is rejected.
    pub fn from_index(i: u8) -> (r: Option<Stage>)
        ensures
            r is Some <==> 0 <= i < 10,
            r matches Some(s) ==> s == Stage::spec_from_idx(i as int),
    {
        match i {
            0 => Some(Stage::Initiate),
            1 => Some(Stage::Apprentice1),
            2 => Some(Stage::Apprentice2),
            3 => Some(Stage::Apprentice3),
            4 => Some(Stage::Apprentice4),
            5 => Some(Stage::Guru1),
            6 => Some(Stage::Guru2),
            7 => Some(Stage::Master),
            8 => Some(Stage::Enlightened),
            9 => Some(Stage::Burned),
            _ => None,
        }
    }

    /// The stage at position `i`; total because every position below
    /// ten names a stage.
    pub fn from_index_total(i: u8) -> (r: Stage)
        requires
            i < 10,
        ensures
            r == Stage::spec_from_idx(i as int),
    {
        match i {
            0 => Stage::Initiate,
            1 => Stage::Apprentice1,
            2 => Stage::Apprentice2,
            3 => Stage::Apprentice3,
            4 => Stage::Apprentice4,
            5 => Stage::Guru1,
            6 => Stage::Guru2,
            7 => Stage::Master,
            8 => Stage::Enlightened,
            _ => Stage::Burned,
        }
    }

    /// Whether the stage counts as passing.
    pub open spec fn spec_is_passing(self) -> bool {
        self.idx() >= 5
    }

    /// A stage is passing iff it is at or beyond the first guru
    /// sub-stage.
    pub fn is_passing(self) -> (r: bool)
        ensures
            r == self.spec_is_passing(),
    {
        self.index() >= 5
    }
}

/// Spaced-repetition system variant; it fixes the review intervals
/// but not the outcome probabilities.
#[derive(Clone, Copy, Debug, PartialEq, Eq, Structural)]
pub enum Srs {
    Normal,
    Accelerated,
}

impl Srs {
    /// The whole-hour interval before a subject that just entered
    /// `stage` becomes reviewable again, or `None` for the initial
    /// and terminal stages, which are never scheduled.
    pub open spec fn spec_hours_to_next_review(self, stage: Stage) -> Option<u32> {
        match (self, stage) {
            (_, Stage::Initiate) => None,
            (_, Stage::Burned) => None,
            (Srs::Normal, Stage::Apprentice1) => Some(4u32),
            (Srs::Normal, Stage::Apprentice2) => Some(8u32),
            (Srs::Normal, Stage::Apprentice3) => Some(23u32),
            (Srs::Normal, Stage::Apprentice4) => Some(47u32),
            (Srs::Accelerated, Stage::Apprentice1) => Some(2u32),
            (Srs::Accelerated, Stage::Apprentice2) => Some(4u32),
            (Srs::Accelerated, Stage::Apprentice3) => Some(8u32),
            (Srs::Accelerated, Stage::Apprentice4) => Some(23u32),
            (_, Stage::Guru1) => Some(167u32),
            (_, Stage::Guru2) => Some(335u32),
            (_, Stage::Master) => Some(719u32),
            (_, Stage::Enlightened) => Some(2879u32),
        }
    }

    /// Interval table of the variant; an interval exists exactly for
    /// the stages strictly between initial and terminal, and every
    /// interval lies in `1..=2879` hours.
    pub fn hours_to_next_review(self, stage: Stage) -> (r: Option<u32>)
        ensures
            r == self.spec_hours_to_next_review(stage),
            r is Some <==> 1 <= stage.idx() <= 8,
            r matches Some(h) ==> 1 <= h <= 2879,
    {
        match (self, stage) {
            (_, Stage::Initiate) => None,
            (_, Stage::Burned) => None,
            (Srs::Normal, Stage::Apprentice1) => Some(4),
            (Srs::Normal, Stage::Apprentice2) => Some(8),
            (Srs::Normal, Stage::Apprentice3) => Some(23),
            (Srs::Normal, Stage::Apprentice4) => Some(47),
            (Srs::Accelerated, Stage::Apprentice1) => Some(2),
            (Srs::Accelerated, Stage::Apprentice2) => Some(4),
            (Srs::Accelerated, Stage::Apprentice3) => Some(8),
            (Srs::Accelerated, Stage::Apprentice4) => Some(23),
            (_, Stage::Guru1) => Some(167),
            (_, Stage::Guru2) => Some(335),
            (_, Stage::Master) => Some(719),
            (_, Stage::Enlightened) => Some(2879),
        }
    }

    /// Decodes the external store's numeric variant code (`1` is the
    /// normal system, `2` the accelerated one); anything else is
    /// rejected.
    pub fn from_code(c: u8) -> (r: Option<Srs>)
        ensures
            r == (if c == 1 {
                Some(Srs::Normal)
            } else if c == 2 {
                Some(Srs::Accelerated)
            } else {
                None::<Srs>
            }),
    {
        match c {
            1 => Some(Srs::Normal),
            2 => Some(Srs::Accelerated),
            _ => None,
        }
    }
}

/// Kind of a curriculum item; `Kanji` is the kind whose mastery
/// ratio gates level advancement.
#[derive(Clone, Copy, Debug, PartialEq, Eq, Structural)]
pub enum SubjectKind {
    Radical,
    Kanji,
    Vocabulary,
}

/// Character-by-character string equality.
fn str_eq(a: &str, b: &str) -> (r: bool)
    ensures
        r == (a@ == b@),
{
    let la = a.unicode_len();
    let lb = b.unicode_len();
    if la != lb {
        proof {
            assert(a@.len() != b@.len());
        }
        return false;
    }
    let mut i: usize = 0;
    while i < la
        invariant
            0 <= i <= la,
            la as nat == a@.len(),
            la as nat == b@.len(),
            forall|j: int| 0 <= j < i ==> a@[j] == b@[j],
        decreases la - i,
    {
        if a.get_char(i) != b.get_char(i) {
            proof {
                assert(a@[i as int] != b@[i as int]);
            }
            return false;
        }
        i = i + 1;
    }
    proof {
        assert(a@ =~= b@);
    }
    true
}

impl SubjectKind {
    /// Decodes the external store's kind name; every name but the
    /// three known ones is rejected.
    pub fn from_name(name: &str) -> (r: Option<SubjectKind>)
        ensures
            r == (if name@ == "radical"@ {
                Some(SubjectKind::Radical)
            } else if name@ == "kanji"@ {
                Some(SubjectKind::Kanji)
            } else if name@ == "vocabulary"@ {
                Some(SubjectKind::Vocabulary)
            } else {
                None::<SubjectKind>
            }),
    {
        if str_eq(name, "radical") {
            Some(SubjectKind::Radical)
        } else if str_eq(name, "kanji") {
            Some(SubjectKind::Kanji)
        } else if str_eq(name, "vocabulary") {
            Some(SubjectKind::Vocabulary)
        } else {
            None
        }
    }
}

/// Identity of a curriculum item.
#[derive(Clone, Copy, Debug, PartialEq, Eq, Hash, Structural)]
pub struct SubjectID(pub u16);

/// One historical review outcome: the variant in effect and the
/// stages before and after the review.
#[derive(Clone, Copy, Debug)]
pub struct Review {
    pub srs: Srs,
    pub start_stage: Stage,
    pub end_stage: Stage,
}

/// An immutable curriculum item.
#[derive(Clone, Debug)]
pub struct Subject {
    pub id: SubjectID,
    pub level: u8,
    pub kind: SubjectKind,
    pub depends_on: Vec<SubjectID>,
    pub depended_on_by: Vec<SubjectID>,
    pub srs: Srs,
}

/// Current study state of one unlocked subject, as reported by the
/// external store. The availability time is in whole hours on a
/// single absolute scale (the scale's origin is the caller's
/// choice); `None` means the subject has not been started yet.
#[derive(Clone, Copy, Debug)]
pub struct Assignment {
    pub subject_id: SubjectID,
    pub stage: Stage,
    pub next_review_time: Option<i64>,
}

} // verus!
