//! The fixed taxonomy of activity categories: the mapping from raw survey
//! activity codes to categories, the dense compact code each category is
//! stored under, and the display label of each category.

use vstd::prelude::*;

verus! {

/// Number of substantive categories; also the compact code of the
/// "missing data" sentinel, which is always the highest code.
pub const MAX_CODE: usize = 20;

/// Number of compact codes altogether: the substantive categories plus the
/// sentinel.
pub const CODE_COUNT: usize = 21;

/// The category of an activity performed during a surveyed day.
///
/// There are 20 substantive categories plus the `MissingData` sentinel.
#[derive(Clone, Copy, Debug, PartialEq, Eq, Structural)]
pub enum ActivityCategory {
    Sleeping,
    PersonalCare,
    HouseholdChores,
    Childcare,
    AdultCare,
    Work,
    Classes,
    NonAthleticExtracurricular,
    Homework,
    OtherEducation,
    Shopping,
    Services,
    CivicDuties,
    EatingDrinking,
    Leisure,
    Exercise,
    ReligiousActivities,
    Volunteering,
    Calls,
    Travel,
    MissingData,
}

/// The compact code of a category: dense, starting at 0, with the
/// `MissingData` sentinel always the greatest code.
pub open spec fn code_of(c: ActivityCategory) -> u8 {
    match c {
        ActivityCategory::Sleeping => 0,
        ActivityCategory::PersonalCare => 1,
        ActivityCategory::HouseholdChores => 2,
        ActivityCategory::Childcare => 3,
        ActivityCategory::AdultCare => 4,
        ActivityCategory::Work => 5,
        ActivityCategory::Classes => 6,
        ActivityCategory::NonAthleticExtracurricular => 7,
        ActivityCategory::Homework => 8,
        ActivityCategory::OtherEducation => 9,
        ActivityCategory::Shopping => 10,
        ActivityCategory::Services => 11,
        ActivityCategory::CivicDuties => 12,
        ActivityCategory::EatingDrinking => 13,
        ActivityCategory::Leisure => 14,
        ActivityCategory::Exercise => 15,
        ActivityCategory::ReligiousActivities => 16,
        ActivityCategory::Volunteering => 17,
        ActivityCategory::Calls => 18,
        ActivityCategory::Travel => 19,
        ActivityCategory::MissingData => 20,
    }
}

/// The inverse of `code_of`: the category stored under a compact code,
/// or `None` for codes outside `0..=20`.
pub open spec fn category_of_code(code: u8) -> Option<ActivityCategory> {
    if code == 0 {
        Some(ActivityCategory::Sleeping)
    } else if code == 1 {
        Some(ActivityCategory::PersonalCare)
    } else if code == 2 {
        Some(ActivityCategory::HouseholdChores)
    } else if code == 3 {
        Some(ActivityCategory::Childcare)
    } else if code == 4 {
        Some(ActivityCategory::AdultCare)
    } else if code == 5 {
        Some(ActivityCategory::Work)
    } else if code == 6 {
        Some(ActivityCategory::Classes)
    } else if code == 7 {
        Some(ActivityCategory::NonAthleticExtracurricular)
    } else if code == 8 {
        Some(ActivityCategory::Homework)
    } else if code == 9 {
        Some(ActivityCategory::OtherEducation)
    } else if code == 10 {
        Some(ActivityCategory::Shopping)
    } else if code == 11 {
        Some(ActivityCategory::Services)
    } else if code == 12 {
        Some(ActivityCategory::CivicDuties)
    } else if code == 13 {
        Some(ActivityCategory::EatingDrinking)
    } else if code == 14 {
        Some(ActivityCategory::Leisure)
    } else if code == 15 {
        Some(ActivityCategory::Exercise)
    } else if code == 16 {
        Some(ActivityCategory::ReligiousActivities)
    } else if code == 17 {
        Some(ActivityCategory::Volunteering)
    } else if code == 18 {
        Some(ActivityCategory::Calls)
    } else if code == 19 {
        Some(ActivityCategory::Travel)
    } else if code == 20 {
        Some(ActivityCategory::MissingData)
    } else {
        None
    }
}

/// The category a raw survey activity code falls in, by the survey's
/// 6-digit major/minor coding scheme, or `None` for unmapped codes.
/// The ranges are checked in a fixed order; the earlier range wins where
/// two overlap (100000 belongs to personal care, not services).
pub open spec fn category_of_raw_code(code: u32) -> Option<ActivityCategory> {
    if 10100 <= code && code <= 10199 {
        Some(ActivityCategory::Sleeping)
    } else if (10200 <= code && code <= 19999) || code == 100000 {
        Some(ActivityCategory::PersonalCare)
    } else if 20000 <= code && code <= 29999 {
        Some(ActivityCategory::HouseholdChores)
    } else if (30000 <= code && code <= 30399) || (40000 <= code && code <= 40399) {
        Some(ActivityCategory::Childcare)
    } else if (30400 <= code && code <= 39999) || (40400 <= code && code <= 49999) {
        Some(ActivityCategory::AdultCare)
    } else if 50000 <= code && code <= 59999 {
        Some(ActivityCategory::Work)
    } else if 60000 <= code && code <= 60199 {
        Some(ActivityCategory::Classes)
    } else if 60200 <= code && code <= 60299 {
        Some(ActivityCategory::NonAthleticExtracurricular)
    } else if 60300 <= code && code <= 60399 {
        Some(ActivityCategory::Homework)
    } else if 60400 <= code && code <= 69999 {
        Some(ActivityCategory::OtherEducation)
    } else if 70000 <= code && code <= 79999 {
        Some(ActivityCategory::Shopping)
    } else if (80000 <= code && code <= 100199) || code == 100304 || (100400 <= code && code
        <= 109999) {
        Some(ActivityCategory::Services)
    } else if (100200 <= code && code <= 100299) || code == 100303 || code == 100399 {
        Some(ActivityCategory::CivicDuties)
    } else if 110000 <= code && code <= 119999 {
        Some(ActivityCategory::EatingDrinking)
    } else if (120000 <= code && code <= 129999) || (130200 <= code && code <= 130399) {
        Some(ActivityCategory::Leisure)
    } else if (130000 <= code && code <= 130199) || (130400 <= code && code <= 139999) {
        Some(ActivityCategory::Exercise)
    } else if 140000 <= code && code <= 149999 {
        Some(ActivityCategory::ReligiousActivities)
    } else if 150000 <= code && code <= 159999 {
        Some(ActivityCategory::Volunteering)
    } else if 160000 <= code && code <= 169999 {
        Some(ActivityCategory::Calls)
    } else if 180000 <= code && code <= 189999 {
        Some(ActivityCategory::Travel)
    } else if 500000 <= code && code <= 509999 {
        Some(ActivityCategory::MissingData)
    } else {
        None
    }
}

/// The display label of a category.
pub open spec fn label_of(c: ActivityCategory) -> Seq<char> {
    match c {
        ActivityCategory::Sleeping => "Sleeping"@,
        ActivityCategory::PersonalCare => "Personal Care"@,
        ActivityCategory::HouseholdChores => "Household Chores"@,
        ActivityCategory::Childcare => "Childcare"@,
        ActivityCategory::AdultCare => "Adult Care"@,
        ActivityCategory::Work => "Work"@,
        ActivityCategory::Classes => "Classes"@,
        ActivityCategory::NonAthleticExtracurricular => "Extracurricular"@,
        ActivityCategory::Homework => "Homework"@,
        ActivityCategory::OtherEducation => "Other Education"@,
        ActivityCategory::Shopping => "Shopping"@,
        ActivityCategory::Services => "Services"@,
        ActivityCategory::CivicDuties => "Civic Duties"@,
        ActivityCategory::EatingDrinking => "Eating and Drinking"@,
        ActivityCategory::Leisure => "Leisure"@,
        ActivityCategory::Exercise => "Exercise"@,
        ActivityCategory::ReligiousActivities => "Religious Activities"@,
        ActivityCategory::Volunteering => "Volunteering"@,
        ActivityCategory::Calls => "Calls"@,
        ActivityCategory::Travel => "Travel"@,
        ActivityCategory::MissingData => "Missing Data"@,
    }
}

impl ActivityCategory {
    /// Maps a raw survey activity code to a category; codes outside every
    /// known range have no mapping.
    pub fn from_original_code(code: u32) -> (r: Option<Self>)
        ensures
            r == category_of_raw_code(code),
    {
        if 10100 <= code && code <= 10199 {
            Some(Self::Sleeping)
        } else if (10200 <= code && code <= 19999) || code == 100000 {
            Some(Self::PersonalCare)
        } else if 20000 <= code && code <= 29999 {
            Some(Self::HouseholdChores)
        } else if (30000 <= code && code <= 30399) || (40000 <= code && code <= 40399) {
            Some(Self::Childcare)
        } else if (30400 <= code && code <= 39999) || (40400 <= code && code <= 49999) {
            Some(Self::AdultCare)
        } else if 50000 <= code && code <= 59999 {
            Some(Self::Work)
        } else if 60000 <= code && code <= 60199 {
            Some(Self::Classes)
        } else if 60200 <= code && code <= 60299 {
            Some(Self::NonAthleticExtracurricular)
        } else if 60300 <= code && code <= 60399 {
            Some(Self::Homework)
        } else if 60400 <= code && code <= 69999 {
            Some(Self::OtherEducation)
        } else if 70000 <= code && code <= 79999 {
            Some(Self::Shopping)
        } else if (80000 <= code && code <= 100199) || code == 100304 || (100400 <= code && code
            <= 109999) {
            Some(Self::Services)
        } else if (100200 <= code && code <= 100299) || code == 100303 || code == 100399 {
            Some(Self::CivicDuties)
        } else if 110000 <= code && code <= 119999 {
            Some(Self::EatingDrinking)
        } else if (120000 <= code && code <= 129999) || (130200 <= code && code <= 130399) {
            Some(Self::Leisure)
        } else if (130000 <= code && code <= 130199) || (130400 <= code && code <= 139999) {
            Some(Self::Exercise)
        } else if 140000 <= code && code <= 149999 {
            Some(Self::ReligiousActivities)
        } else if 150000 <= code && code <= 159999 {
            Some(Self::Volunteering)
        } else if 160000 <= code && code <= 169999 {
            Some(Self::Calls)
        } else if 180000 <= code && code <= 189999 {
            Some(Self::Travel)
        } else if 500000 <= code && code <= 509999 {
            Some(Self::MissingData)
        } else {
            None
        }
    }

    /// The display label of the category.
    pub fn into_str(&self) -> (r: &'static str)
        ensures
            r@ == label_of(*self),
    {
        match self {
            Self::Sleeping => "Sleeping",
            Self::PersonalCare => "Personal Care",
            Self::HouseholdChores => "Household Chores",
            Self::Childcare => "Childcare",
            Self::AdultCare => "Adult Care",
            Self::Work => "Work",
            Self::Classes => "Classes",
            Self::NonAthleticExtracurricular => "Extracurricular",
            Self::Homework => "Homework",
            Self::OtherEducation => "Other Education",
            Self::Shopping => "Shopping",
            Self::Services => "Services",
            Self::CivicDuties => "Civic Duties",
            Self::EatingDrinking => "Eating and Drinking",
            Self::Leisure => "Leisure",
            Self::Exercise => "Exercise",
            Self::ReligiousActivities => "Religious Activities",
            Self::Volunteering => "Volunteering",
            Self::Calls => "Calls",
            Self::Travel => "Travel",
            Self::MissingData => "Missing Data",
        }
    }

    /// The category stored under a compact code, or `None` for codes
    /// outside `0..=20`.
    pub fn from_code(code: u8) -> (r: Option<Self>)
        ensures
            r == category_of_code(code),
    {
        if code == 0 {
            Some(Self::Sleeping)
        } else if code == 1 {
            Some(Self::PersonalCare)
        } else if code == 2 {
            Some(Self::HouseholdChores)
        } else if code == 3 {
            Some(Self::Childcare)
        } else if code == 4 {
            Some(Self::AdultCare)
        } else if code == 5 {
            Some(Self::Work)
        } else if code == 6 {
            Some(Self::Classes)
        } else if code == 7 {
            Some(Self::NonAthleticExtracurricular)
        } else if code == 8 {
            Some(Self::Homework)
        } else if code == 9 {
            Some(Self::OtherEducation)
        } else if code == 10 {
            Some(Self::Shopping)
        } else if code == 11 {
            Some(Self::Services)
        } else if code == 12 {
            Some(Self::CivicDuties)
        } else if code == 13 {
            Some(Self::EatingDrinking)
        } else if code == 14 {
            Some(Self::Leisure)
        } else if code == 15 {
            Some(Self::Exercise)
        } else if code == 16 {
            Some(Self::ReligiousActivities)
        } else if code == 17 {
            Some(Self::Volunteering)
        } else if code == 18 {
            Some(Self::Calls)
        } else if code == 19 {
            Some(Self::Travel)
        } else if code == 20 {
            Some(Self::MissingData)
        } else {
            None
        }
    }

    /// The compact code of the category: codes are dense from 0 and the
    /// sentinel carries the greatest code.
    pub fn into_code(&self) -> (code: u8)
        ensures
            code == code_of(*self),
            code <= MAX_CODE,
    {
        match self {
            Self::Sleeping => 0,
            Self::PersonalCare => 1,
            Self::HouseholdChores => 2,
            Self::Childcare => 3,
            Self::AdultCare => 4,
            Self::Work => 5,
            Self::Classes => 6,
            Self::NonAthleticExtracurricular => 7,
            Self::Homework => 8,
            Self::OtherEducation => 9,
            Self::Shopping => 10,
            Self::Services => 11,
            Self::CivicDuties => 12,
            Self::EatingDrinking => 13,
            Self::Leisure => 14,
            Self::Exercise => 15,
            Self::ReligiousActivities => 16,
            Self::Volunteering => 17,
            Self::Calls => 18,
            Self::Travel => 19,
            Self::MissingData => 20,
        }
    }

    /// All categories except the `MissingData` sentinel, in ascending
    /// compact-code order.
    pub fn valid_iter() -> (r: Vec<Self>)
        ensures
            r@.len() == MAX_CODE,
            forall|i: int|
                0 <= i < MAX_CODE ==> code_of(#[trigger] r@[i]) == i,
    {
        let mut v: Vec<Self> = Vec::new();
        let mut c: u8 = 0;
        while c < 20
            invariant
                c <= 20,
                v@.len() == c,
                forall|i: int| 0 <= i < c ==> code_of(#[trigger] v@[i]) == i,
            decreases 20 - c,
        {
            match Self::from_code(c) {
                Some(cat) => v.push(cat),
                None => {},
            }
            c = c + 1;
        }
        v
    }
}

/// Converting a valid compact code to a category and back to a code
/// returns the same code, so repeating the round trip is idempotent:
/// looking up the code of the category a code names gives that code back.
pub proof fn lemma_compact_code_round_trip(code: u8)
    requires
        code <= MAX_CODE,
    ensures
        category_of_code(code) matches Some(cat) && code_of(cat) == code,
        category_of_code(code_of(category_of_code(code)->Some_0)) == category_of_code(code),
{
}

/// `code_of` is injective: two categories with the same compact code
/// are the same category.
pub proof fn lemma_compact_code_injective(a: ActivityCategory, b: ActivityCategory)
    requires
        code_of(a) == code_of(b),
    ensures
        a == b,
{
}

/// The image of `code_of` is exactly `0..=20`: every category's code is
/// in that range, every code in that range is some category's code, and
/// the sentinel maps to the greatest code, 20.
pub proof fn lemma_compact_code_image(c: ActivityCategory, code: u8)
    requires
        code <= MAX_CODE,
    ensures
        code_of(c) <= MAX_CODE,
        code_of(ActivityCategory::MissingData) == MAX_CODE,
        exists|cat: ActivityCategory| code_of(cat) == code,
{
    let witness = category_of_code(code)->Some_0;
    assert(code_of(witness) == code);
}

} // verus!
