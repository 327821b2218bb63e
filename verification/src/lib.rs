//! Assigns survey respondents to four capacity-bounded color groups,
//! honoring each respondent's ranked preferences and giving priority to
//! earlier submissions.

pub mod calculator;
pub mod chronology;
pub mod guarantees;
pub mod record;
pub mod respondent;
