//! The respondent record and the four color categories it ranks.

use vstd::prelude::*;

verus! {

/// How the first category is written in records.
pub const GREENS: &'static str = "Greens";

/// How the second category is written in records.
pub const BLUES: &'static str = "Blues";

/// How the third category is written in records.
pub const REDS: &'static str = "Reds + Oranges";

/// How the fourth category is written in records.
pub const PURPLES: &'static str = "Pinks + Purples";

/// One of the four fixed color groups, in enumeration order.
#[derive(Clone, Copy, Debug, PartialEq, Eq, Structural)]
pub enum Category {
    Greens,
    Blues,
    Reds,
    Purples,
}

impl Category {
    /// The label under which the category is written in records.
    pub open spec fn label_text(self) -> Seq<char> {
        match self {
            Category::Greens => GREENS@,
            Category::Blues => BLUES@,
            Category::Reds => REDS@,
            Category::Purples => PURPLES@,
        }
    }

    /// The label under which the category is written in records.
    pub fn label(&self) -> (s: String)
        ensures
            s@ == self.label_text(),
    {
        match self {
            Category::Greens => GREENS.to_owned(),
            Category::Blues => BLUES.to_owned(),
            Category::Reds => REDS.to_owned(),
            Category::Purples => PURPLES.to_owned(),
        }
    }

    /// The category that is written `label`, if there is one.
    pub fn from_label(label: &String) -> (r: Option<Category>)
        ensures
            forall|c: Category| r == Some(c) <==> label@ == c.label_text(),
            r is Some <==> is_label(label@),
    {
        proof {
            lemma_labels_differ();
            assert(is_label(label@) <==> (label@ == Category::Greens.label_text() || label@
                == Category::Blues.label_text() || label@ == Category::Reds.label_text() || label@
                == Category::Purples.label_text()));
        }
        if *label == Category::Greens.label() {
            Some(Category::Greens)
        } else if *label == Category::Blues.label() {
            Some(Category::Blues)
        } else if *label == Category::Reds.label() {
            Some(Category::Reds)
        } else if *label == Category::Purples.label() {
            Some(Category::Purples)
        } else {
            None
        }
    }
}

/// Some category is written `label`.
pub open spec fn is_label(label: Seq<char>) -> bool {
    exists|c: Category| #[trigger] c.label_text() == label
}

/// No two categories are written alike.
pub proof fn lemma_labels_differ()
    ensures
        forall|a: Category, b: Category| a.label_text() == b.label_text() ==> a == b,
{
    reveal_strlit("Greens");
    reveal_strlit("Blues");
    reveal_strlit("Reds + Oranges");
    reveal_strlit("Pinks + Purples");
    assert("Greens"@.len() == 6);
    assert("Blues"@.len() == 5);
    assert("Reds + Oranges"@.len() == 14);
    assert("Pinks + Purples"@.len() == 15);
}

/// Why a respondent cannot be allocated.
#[derive(Clone, Copy, Debug, PartialEq, Eq, Structural)]
pub enum AllocationError {
    /// The four ranked preferences are not a permutation of the four categories.
    InvalidPreferenceSet,
}

/// The category that `new` derives as fourth preference: the last category in
/// enumeration order that is none of the three given ones.
pub open spec fn remaining_category(a: Category, b: Category, c: Category) -> Category {
    if a != Category::Purples && b != Category::Purples && c != Category::Purples {
        Category::Purples
    } else if a != Category::Reds && b != Category::Reds && c != Category::Reds {
        Category::Reds
    } else if a != Category::Blues && b != Category::Blues && c != Category::Blues {
        Category::Blues
    } else {
        Category::Greens
    }
}

/// Four ranked preferences form a permutation of the four categories exactly
/// when no two of them coincide.
pub open spec fn is_permutation(a: Category, b: Category, c: Category, d: Category) -> bool {
    a != b && a != c && a != d && b != c && b != d && c != d
}

/// A survey response: contact details, four ranked color preferences and the
/// submission time in seconds (earlier is smaller).
#[derive(Debug, PartialEq, Eq)]
pub struct Respondent {
    time: u64,
    email: String,
    name: String,
    phone_number: String,
    color1: Category,
    color2: Category,
    color3: Category,
    color4: Category,
}

impl Clone for Respondent {
    fn clone(&self) -> (r: Self)
        ensures
            r == *self,
    {
        Respondent {
            time: self.time,
            email: self.email.clone(),
            name: self.name.clone(),
            phone_number: self.phone_number.clone(),
            color1: self.color1,
            color2: self.color2,
            color3: self.color3,
            color4: self.color4,
        }
    }
}

impl Respondent {
    /// The submission time.
    pub closed spec fn time(&self) -> u64 {
        self.time
    }

    /// The e-mail address, as text.
    pub closed spec fn email(&self) -> Seq<char> {
        self.email@
    }

    /// The name, as text.
    pub closed spec fn name(&self) -> Seq<char> {
        self.name@
    }

    /// The phone number, as text.
    pub closed spec fn phone_number(&self) -> Seq<char> {
        self.phone_number@
    }

    /// The preference at `rank`, counted from 0 (most preferred) to 3; ranks
    /// beyond 3 read as the last preference.
    pub closed spec fn preference(&self, rank: int) -> Category {
        if rank <= 0 {
            self.color1
        } else if rank == 1 {
            self.color2
        } else if rank == 2 {
            self.color3
        } else {
            self.color4
        }
    }

    /// The four preferences are a permutation of the four categories.
    pub open spec fn has_valid_preferences(&self) -> bool {
        is_permutation(
            self.preference(0),
            self.preference(1),
            self.preference(2),
            self.preference(3),
        )
    }

    /// Builds a respondent from its contact details and first three
    /// preferences; the fourth preference is the category left over.
    pub fn new(
        time: u64,
        email: String,
        name: String,
        phone_number: String,
        color1: Category,
        color2: Category,
        color3: Category,
    ) -> (r: Self)
        ensures
            r.time() == time,
            r.email() == email@,
            r.name() == name@,
            r.phone_number() == phone_number@,
            r.preference(0) == color1,
            r.preference(1) == color2,
            r.preference(2) == color3,
            r.preference(3) == remaining_category(color1, color2, color3),
    {
        let mut respondent = Respondent {
            time,
            email,
            name,
            phone_number,
            color1,
            color2,
            color3,
            color4: Category::Greens,
        };
        respondent.set_remaining_color();
        respondent
    }

    pub fn get_color1(&self) -> (c: Category)
        ensures
            c == self.preference(0),
    {
        self.color1
    }

    pub fn get_color2(&self) -> (c: Category)
        ensures
            c == self.preference(1),
    {
        self.color2
    }

    pub fn get_color3(&self) -> (c: Category)
        ensures
            c == self.preference(2),
    {
        self.color3
    }

    pub fn get_color4(&self) -> (c: Category)
        ensures
            c == self.preference(3),
    {
        self.color4
    }

    pub fn get_time(&self) -> (t: u64)
        ensures
            t == self.time(),
    {
        self.time
    }

    pub fn get_name(&self) -> (s: String)
        ensures
            s@ == self.name(),
    {
        self.name.clone()
    }

    pub fn get_email(&self) -> (s: String)
        ensures
            s@ == self.email(),
    {
        self.email.clone()
    }

    pub fn get_phone_number(&self) -> (s: String)
        ensures
            s@ == self.phone_number(),
    {
        self.phone_number.clone()
    }

    /// The preference at `rank` (0 to 3).
    pub fn get_color(&self, rank: u8) -> (c: Category)
        requires
            rank < 4,
        ensures
            c == self.preference(rank as int),
    {
        if rank == 0 {
            self.color1
        } else if rank == 1 {
            self.color2
        } else if rank == 2 {
            self.color3
        } else {
            self.color4
        }
    }

    /// States the fourth preference explicitly; everything else is kept.
    pub fn set_color4(&mut self, c: Category)
        ensures
            final(self).preference(3) == c,
            final(self).preference(0) == old(self).preference(0),
            final(self).preference(1) == old(self).preference(1),
            final(self).preference(2) == old(self).preference(2),
            final(self).time() == old(self).time(),
            final(self).email() == old(self).email(),
            final(self).name() == old(self).name(),
            final(self).phone_number() == old(self).phone_number(),
    {
        self.color4 = c;
    }

    /// Sets the fourth preference to the category that the first three leave
    /// over; everything else is kept.
    pub fn set_remaining_color(&mut self)
        ensures
            final(self).preference(3) == remaining_category(
                old(self).preference(0),
                old(self).preference(1),
                old(self).preference(2),
            ),
            final(self).preference(0) == old(self).preference(0),
            final(self).preference(1) == old(self).preference(1),
            final(self).preference(2) == old(self).preference(2),
            final(self).time() == old(self).time(),
            final(self).email() == old(self).email(),
            final(self).name() == old(self).name(),
            final(self).phone_number() == old(self).phone_number(),
    {
        let a = self.color1;
        let b = self.color2;
        let c = self.color3;
        if a != Category::Greens && b != Category::Greens && c != Category::Greens {
            self.set_color4(Category::Greens);
        }
        if a != Category::Blues && b != Category::Blues && c != Category::Blues {
            self.set_color4(Category::Blues);
        }
        if a != Category::Reds && b != Category::Reds && c != Category::Reds {
            self.set_color4(Category::Reds);
        }
        if a != Category::Purples && b != Category::Purples && c != Category::Purples {
            self.set_color4(Category::Purples);
        }
    }

    /// Whether the four preferences are a permutation of the four categories.
    pub fn is_valid(&self) -> (b: bool)
        ensures
            b == self.has_valid_preferences(),
    {
        self.color1 != self.color2 && self.color1 != self.color3 && self.color1 != self.color4
            && self.color2 != self.color3 && self.color2 != self.color4 && self.color3
            != self.color4
    }

    /// Accepts a respondent whose preferences are a permutation of the four
    /// categories and rejects any other.
    pub fn validate(&self) -> (r: Result<(), AllocationError>)
        ensures
            r == if self.has_valid_preferences() {
                Ok::<(), AllocationError>(())
            } else {
                Err::<(), AllocationError>(AllocationError::InvalidPreferenceSet)
            },
    {
        if self.is_valid() {
            Ok(())
        } else {
            Err(AllocationError::InvalidPreferenceSet)
        }
    }
}

/// Three distinct preferences and the category they leave over form a
/// permutation of the four categories: the derived fourth preference is the
/// unique category absent from the first three.
pub proof fn lemma_remaining_completes(a: Category, b: Category, c: Category)
    ensures
        remaining_category(a, b, c) != a,
        remaining_category(a, b, c) != b,
        remaining_category(a, b, c) != c,
        (a != b && a != c && b != c) ==> is_permutation(a, b, c, remaining_category(a, b, c)),
        forall|d: Category|
            is_permutation(a, b, c, d) ==> d == remaining_category(a, b, c),
{
}

/// A valid respondent ranks every category: each category stands at one of
/// the four ranks.
pub proof fn lemma_valid_ranks_every_category(r: Respondent, c: Category)
    requires
        r.has_valid_preferences(),
    ensures
        exists|rank: int| 0 <= rank < 4 && #[trigger] r.preference(rank) == c,
{
    if r.preference(0) == c {
    } else if r.preference(1) == c {
    } else if r.preference(2) == c {
    } else {
        assert(r.preference(3) == c);
    }
}

} // verus!
