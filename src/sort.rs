use vstd::prelude::*;
use crate::text::same_text;

verus! {

/// How the lines of a file are compared.
#[derive(PartialEq, Eq, Structural, Clone, Copy, Debug)]
pub enum Sort {
    /// By numeric value with a binary suffix (`2K`).
    Human,
    /// By month name.
    Month,
    /// By numeric value.
    Numeric,
    /// As text.
    String,
}

/// A month, in calendar order.
#[derive(PartialEq, Eq, Structural, Clone, Copy, Debug)]
pub enum Month {
    Jan,
    Feb,
    Mar,
    Apr,
    May,
    Jun,
    Jul,
    Aug,
    Sep,
    Oct,
    Nov,
    Dec,
}

/// The sort order that a command-line value names.
pub open spec fn sort_named(s: Seq<char>) -> Option<Sort> {
    if s == "human"@ {
        Some(Sort::Human)
    } else if s == "month"@ {
        Some(Sort::Month)
    } else if s == "numeric"@ {
        Some(Sort::Numeric)
    } else if s == "string"@ {
        Some(Sort::String)
    } else {
        None
    }
}

/// The month that a lowercase three-letter name names.
pub open spec fn month_named(s: Seq<char>) -> Option<Month> {
    if s == "jan"@ {
        Some(Month::Jan)
    } else if s == "feb"@ {
        Some(Month::Feb)
    } else if s == "mar"@ {
        Some(Month::Mar)
    } else if s == "apr"@ {
        Some(Month::Apr)
    } else if s == "may"@ {
        Some(Month::May)
    } else if s == "jun"@ {
        Some(Month::Jun)
    } else if s == "jul"@ {
        Some(Month::Jul)
    } else if s == "aug"@ {
        Some(Month::Aug)
    } else if s == "sep"@ {
        Some(Month::Sep)
    } else if s == "oct"@ {
        Some(Month::Oct)
    } else if s == "nov"@ {
        Some(Month::Nov)
    } else if s == "dec"@ {
        Some(Month::Dec)
    } else {
        None
    }
}

impl Sort {
    /// The sort order named `human`, `month`, `numeric` or `string`.
    pub fn from_name(s: &str) -> (r: Option<Sort>)
        ensures
            r == sort_named(s@),
    {
        if same_text(s, "human") {
            Some(Sort::Human)
        } else if same_text(s, "month") {
            Some(Sort::Month)
        } else if same_text(s, "numeric") {
            Some(Sort::Numeric)
        } else if same_text(s, "string") {
            Some(Sort::String)
        } else {
            None
        }
    }
}

impl Month {
    /// The month named by `jan` ... `dec`.
    pub fn from(s: &str) -> (r: Option<Month>)
        ensures
            r == month_named(s@),
    {
        if same_text(s, "jan") {
            Some(Month::Jan)
        } else if same_text(s, "feb") {
            Some(Month::Feb)
        } else if same_text(s, "mar") {
            Some(Month::Mar)
        } else if same_text(s, "apr") {
            Some(Month::Apr)
        } else if same_text(s, "may") {
            Some(Month::May)
        } else if same_text(s, "jun") {
            Some(Month::Jun)
        } else if same_text(s, "jul") {
            Some(Month::Jul)
        } else if same_text(s, "aug") {
            Some(Month::Aug)
        } else if same_text(s, "sep") {
            Some(Month::Sep)
        } else if same_text(s, "oct") {
            Some(Month::Oct)
        } else if same_text(s, "nov") {
            Some(Month::Nov)
        } else if same_text(s, "dec") {
            Some(Month::Dec)
        } else {
            None
        }
    }
}

} // verus!
