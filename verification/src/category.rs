//! Classification of invitation rounds into draw categories, read from
//! the feed's round-name text.

use crate::strutil::{digit_val, is_digit, prefix_of, starts_with_str, str_eq};
use vstd::prelude::*;
use vstd::string::StrSliceExecFns;
use vstd::string::StringExecFns;

verus! {

/// The kind of a draw.
#[derive(Debug, Clone, Copy, PartialEq, Eq, PartialOrd, Ord, Hash, Structural)]
pub enum CategoryCode {
    General,
    Province,
    Inland,
    Oversea,
    Stem,
    Health,
    French,
    Trade,
    Transport,
    Agriculture,
    Invalid,
}

/// Display name of a category.
pub open spec fn code_name(c: CategoryCode) -> Seq<char> {
    match c {
        CategoryCode::General => "General"@,
        CategoryCode::Province => "Province"@,
        CategoryCode::Inland => "Canadian Experience"@,
        CategoryCode::Oversea => "Foreign Worker"@,
        CategoryCode::Stem => "STEM"@,
        CategoryCode::Health => "Health"@,
        CategoryCode::French => "French"@,
        CategoryCode::Trade => "Trade"@,
        CategoryCode::Transport => "Transport"@,
        CategoryCode::Agriculture => "Agriculture"@,
        CategoryCode::Invalid => "Unknown"@,
    }
}

/// Chart colour of a category.
pub open spec fn code_color(c: CategoryCode) -> Seq<char> {
    match c {
        CategoryCode::General => "#ECF0F1"@,
        CategoryCode::Province => "#9B59B6"@,
        CategoryCode::Inland => "#E74C3C"@,
        CategoryCode::Oversea => "#C0392B"@,
        CategoryCode::Stem => "#3498DB"@,
        CategoryCode::Health => "#16A085"@,
        CategoryCode::French => "#D35400"@,
        CategoryCode::Trade => "#7F8C8D"@,
        CategoryCode::Transport => "#F39C12"@,
        CategoryCode::Agriculture => "#2ECC71"@,
        CategoryCode::Invalid => "#000000"@,
    }
}

impl CategoryCode {
    /// Every valid category, in display order.
    pub fn values() -> (r: Vec<CategoryCode>)
        ensures
            r@ =~= seq![
                CategoryCode::General,
                CategoryCode::Province,
                CategoryCode::Inland,
                CategoryCode::Oversea,
                CategoryCode::Stem,
                CategoryCode::Health,
                CategoryCode::French,
                CategoryCode::Trade,
                CategoryCode::Transport,
                CategoryCode::Agriculture,
            ],
    {
        let mut r: Vec<CategoryCode> = Vec::new();
        r.push(CategoryCode::General);
        r.push(CategoryCode::Province);
        r.push(CategoryCode::Inland);
        r.push(CategoryCode::Oversea);
        r.push(CategoryCode::Stem);
        r.push(CategoryCode::Health);
        r.push(CategoryCode::French);
        r.push(CategoryCode::Trade);
        r.push(CategoryCode::Transport);
        r.push(CategoryCode::Agriculture);
        r
    }

    /// The category's display name.
    pub fn as_str(&self) -> (r: String)
        ensures
            r@ == code_name(*self),
    {
        match self {
            CategoryCode::General => String::from_str("General"),
            CategoryCode::Province => String::from_str("Province"),
            CategoryCode::Inland => String::from_str("Canadian Experience"),
            CategoryCode::Oversea => String::from_str("Foreign Worker"),
            CategoryCode::Stem => String::from_str("STEM"),
            CategoryCode::Health => String::from_str("Health"),
            CategoryCode::French => String::from_str("French"),
            CategoryCode::Trade => String::from_str("Trade"),
            CategoryCode::Transport => String::from_str("Transport"),
            CategoryCode::Agriculture => String::from_str("Agriculture"),
            CategoryCode::Invalid => String::from_str("Unknown"),
        }
    }

    /// The category's chart colour.
    pub fn as_color(&self) -> (r: String)
        ensures
            r@ == code_color(*self),
    {
        match self {
            CategoryCode::General => String::from_str("#ECF0F1"),
            CategoryCode::Province => String::from_str("#9B59B6"),
            CategoryCode::Inland => String::from_str("#E74C3C"),
            CategoryCode::Oversea => String::from_str("#C0392B"),
            CategoryCode::Stem => String::from_str("#3498DB"),
            CategoryCode::Health => String::from_str("#16A085"),
            CategoryCode::French => String::from_str("#D35400"),
            CategoryCode::Trade => String::from_str("#7F8C8D"),
            CategoryCode::Transport => String::from_str("#F39C12"),
            CategoryCode::Agriculture => String::from_str("#2ECC71"),
            CategoryCode::Invalid => String::from_str("#000000"),
        }
    }
}

/// The category the round-name text denotes.
pub open spec fn spec_category_code(s: Seq<char>) -> CategoryCode {
    if s == "No Program Specified"@ || s == "General"@ {
        CategoryCode::General
    } else if s == "Provincial Nominee Program"@ {
        CategoryCode::Province
    } else if s == "Canadian Experience Class"@ {
        CategoryCode::Inland
    } else if s == "Federal Skilled Worker"@ {
        CategoryCode::Oversea
    } else if s == "Federal Skilled Trades"@ || prefix_of("Trade occupations"@, s) {
        CategoryCode::Trade
    } else if prefix_of("STEM occupations"@, s) {
        CategoryCode::Stem
    } else if prefix_of("Healthcare occupations"@, s) {
        CategoryCode::Health
    } else if prefix_of("French language proficiency"@, s) {
        CategoryCode::French
    } else if prefix_of("Transport occupations"@, s) {
        CategoryCode::Transport
    } else if prefix_of("Agriculture and agri-food occupations"@, s) {
        CategoryCode::Agriculture
    } else {
        CategoryCode::Invalid
    }
}

/// The year tag occurs at position `k`: an open parenthesis, a year in
/// the two-thousands, a dash, one digit and a closing parenthesis.
pub open spec fn year_tag_at(s: Seq<char>, k: int) -> bool {
    &&& 0 <= k
    &&& k + 8 <= s.len()
    &&& s[k] == '('
    &&& s[k + 1] == '2'
    &&& s[k + 2] == '0'
    &&& is_digit(s[k + 3])
    &&& is_digit(s[k + 4])
    &&& s[k + 5] == '-'
    &&& is_digit(s[k + 6])
    &&& s[k + 7] == ')'
}

/// Year of the first year tag at or after position `k`, if any.
pub open spec fn year_from(s: Seq<char>, k: int) -> Option<int>
    decreases s.len() - k when 0 <= k
{
    if k + 8 > s.len() {
        None
    } else if year_tag_at(s, k) {
        Some(2000 + 10 * digit_val(s[k + 3]) + digit_val(s[k + 4]))
    } else {
        year_from(s, k + 1)
    }
}

/// A draw category together with the program year its round name was
/// tagged with, if any.
#[derive(Debug, Clone, Copy, PartialEq, Eq, PartialOrd, Ord, Hash)]
pub struct Category {
    pub code: CategoryCode,
    pub year: Option<i32>,
}

impl Category {
    /// Year of the first year tag in the text, if any.
    fn parse_year(raw: &str) -> (r: Option<i32>)
        ensures
            match year_from(raw@, 0) {
                Some(y) => r is Some && r->0 == y,
                None => r is None,
            },
    {
        let n = raw.unicode_len();
        if n < 8 {
            return None;
        }
        let mut k: usize = 0;
        while k <= n - 8
            invariant
                n == raw@.len(),
                8 <= n,
                k <= n,
                year_from(raw@, 0) == year_from(raw@, k as int),
            decreases n - k,
        {
            let c0 = raw.get_char(k);
            let c1 = raw.get_char(k + 1);
            let c2 = raw.get_char(k + 2);
            let c3 = raw.get_char(k + 3);
            let c4 = raw.get_char(k + 4);
            let c5 = raw.get_char(k + 5);
            let c6 = raw.get_char(k + 6);
            let c7 = raw.get_char(k + 7);
            if c0 == '(' && c1 == '2' && c2 == '0' && '0' <= c3 && c3 <= '9' && '0' <= c4 && c4
                <= '9' && c5 == '-' && '0' <= c6 && c6 <= '9' && c7 == ')' {
                let y: i32 = 2000 + 10 * ((c3 as u32) as i32 - 48) + ((c4 as u32) as i32 - 48);
                proof {
                    assert(year_tag_at(raw@, k as int));
                }
                return Some(y);
            }
            proof {
                assert(!year_tag_at(raw@, k as int));
            }
            k += 1;
        }
        None
    }

    /// Classifies a round name into its category and tagged year.
    pub fn parse(raw: &str) -> (r: Category)
        ensures
            r.code == spec_category_code(raw@),
            match year_from(raw@, 0) {
                Some(y) => r.year is Some && r.year->0 == y,
                None => r.year is None,
            },
    {
        let code = if str_eq(raw, "No Program Specified") || str_eq(raw, "General") {
            CategoryCode::General
        } else if str_eq(raw, "Provincial Nominee Program") {
            CategoryCode::Province
        } else if str_eq(raw, "Canadian Experience Class") {
            CategoryCode::Inland
        } else if str_eq(raw, "Federal Skilled Worker") {
            CategoryCode::Oversea
        } else if str_eq(raw, "Federal Skilled Trades") || starts_with_str(
            raw,
            "Trade occupations",
        ) {
            CategoryCode::Trade
        } else if starts_with_str(raw, "STEM occupations") {
            CategoryCode::Stem
        } else if starts_with_str(raw, "Healthcare occupations") {
            CategoryCode::Health
        } else if starts_with_str(raw, "French language proficiency") {
            CategoryCode::French
        } else if starts_with_str(raw, "Transport occupations") {
            CategoryCode::Transport
        } else if starts_with_str(raw, "Agriculture and agri-food occupations") {
            CategoryCode::Agriculture
        } else {
            CategoryCode::Invalid
        };
        Category { code, year: Category::parse_year(raw) }
    }

    /// The category was recognised.
    pub fn is_valid(&self) -> (r: bool)
        ensures
            r == (self.code != CategoryCode::Invalid),
    {
        self.code != CategoryCode::Invalid
    }

    /// The category's display name.
    pub fn as_str(&self) -> (r: String)
        ensures
            r@ == code_name(self.code),
    {
        self.code.as_str()
    }

    /// The category's chart colour.
    pub fn as_color(&self) -> (r: String)
        ensures
            r@ == code_color(self.code),
    {
        self.code.as_color()
    }
}

} // verus!
