//! Invitation rounds: their identifiers and the parsed event record
//! the engine consumes.

use crate::category::{spec_category_code, year_from, Category};
use crate::date::{date_of_text, Date};
use crate::pathway::Pathway;
use crate::strutil::{
    i32_to_string, int_text_value, is_valid_int_text, parse_i32, spec_decimal, str_eq,
    text_contains, valid_int_text,
};
use crate::{COUNT_LIMIT, DATE_MAG, SCORE_TOP};
use vstd::prelude::*;
use vstd::string::StringExecFns;

verus! {

broadcast use vstd::string::group_string_axioms;

/// Round number, with a minor part to order the pair of rounds that
/// share one published number.
#[derive(Debug, Clone, Copy, PartialEq, Eq, PartialOrd, Ord, Hash, Structural)]
pub struct InviteId(i32, i32);

/// The round-number text is one of the two lettered numbers or a
/// plain integer.
pub open spec fn id_text_ok(s: Seq<char>) -> bool {
    s == "91a"@ || s == "91b"@ || valid_int_text(s)
}

impl InviteId {
    /// Published round number.
    pub closed spec fn spec_major(self) -> int {
        self.0 as int
    }

    /// Tie-breaking minor part.
    pub closed spec fn spec_minor(self) -> int {
        self.1 as int
    }

    /// Reads a round number; the two rounds published as one number
    /// with letter suffixes get distinct minor parts.
    pub fn parse(x: &str) -> (r: InviteId)
        requires
            id_text_ok(x@),
        ensures
            x@ == "91a"@ ==> r.spec_major() == 91 && r.spec_minor() == 0,
            x@ == "91b"@ ==> r.spec_major() == 91 && r.spec_minor() == 1,
            x@ != "91a"@ && x@ != "91b"@ ==> r.spec_major() == int_text_value(x@)
                && r.spec_minor() == 0,
    {
        proof {
            reveal_strlit("91a");
            reveal_strlit("91b");
        }
        if str_eq(x, "91a") {
            proof {
                assert("91a"@.len() == 3);
                assert("91a"@[2] == 'a');
                assert("91b"@[2] == 'b');
                assert("91a"@ != "91b"@);
            }
            InviteId(91, 0)
        } else if str_eq(x, "91b") {
            InviteId(91, 1)
        } else {
            InviteId(parse_i32(x), 0)
        }
    }

    /// The round number as text, with the letter suffix where one was
    /// published.
    pub fn as_string(&self) -> (r: String)
        ensures
            self.spec_major() == 91 && self.spec_minor() == 0 ==> r@ == "91a"@,
            self.spec_major() == 91 && self.spec_minor() == 1 ==> r@ == "91b"@,
            self.spec_major() != 91 ==> r@ == spec_decimal(self.spec_major()),
    {
        if self.0 == 91 && self.1 == 0 {
            String::from_str("91a")
        } else if self.0 == 91 && self.1 == 1 {
            String::from_str("91b")
        } else {
            i32_to_string(self.0)
        }
    }
}

/// One invitation round: when it was held, which category and
/// pathways it drew from, how many candidates it invited and down to
/// which score.
#[derive(Debug, Clone, Copy, PartialEq, Eq, PartialOrd, Ord)]
pub struct Invite {
    pub id: InviteId,
    pub date: Date,
    pub category: Category,
    pub pathway: Pathway,
    pub size: i64,
    pub score: i64,
}

/// All the texts of a feed row that make an invitation round are in
/// range: the round number, the date, the draw size and the score
/// cutoff.
pub open spec fn invite_texts_ok(
    number: Seq<char>,
    date: Seq<char>,
    size: Seq<char>,
    crs: Seq<char>,
) -> bool {
    &&& id_text_ok(number)
    &&& match date_of_text(date) {
        Some(d) => 0 <= d <= DATE_MAG,
        None => false,
    }
    &&& valid_int_text(size) && 0 <= int_text_value(size) <= COUNT_LIMIT
    &&& valid_int_text(crs) && 0 <= int_text_value(crs) <= SCORE_TOP
}

impl Invite {
    /// The ranges the engine's arithmetic relies on.
    pub open spec fn wf(self) -> bool {
        &&& self.date.wf()
        &&& 0 <= self.size <= COUNT_LIMIT
        &&& 0 <= self.score <= SCORE_TOP
    }

    /// Builds a round from the feed row's text fields; `None` when a
    /// numeric field or the date is missing, malformed or out of
    /// range.  The category may still be unrecognised: rounds are
    /// filtered by `is_valid` afterwards, as the feed also lists
    /// rounds of kinds the model does not cover.
    pub fn parse(
        draw_number: &str,
        draw_date_full: &str,
        draw_name: &str,
        draw_text2: &str,
        draw_size: &str,
        draw_crs: &str,
    ) -> (r: Option<Invite>)
        ensures
            r is Some <==> invite_texts_ok(draw_number@, draw_date_full@, draw_size@, draw_crs@),
            r is Some ==> {
                let v = r->0;
                &&& v.wf()
                &&& v.date.days as int == date_of_text(draw_date_full@)->0
                &&& v.category.code == spec_category_code(draw_name@)
                &&& (match year_from(draw_name@, 0) {
                    Some(y) => v.category.year is Some && v.category.year->0 == y,
                    None => v.category.year is None,
                })
                &&& v.pathway.spec_is_pnp() == text_contains(
                    draw_text2@,
                    "Provincial Nominee Program"@,
                )
                &&& v.pathway.spec_is_cec() == text_contains(
                    draw_text2@,
                    "Canadian Experience Class"@,
                )
                &&& v.pathway.spec_is_fsw() == text_contains(
                    draw_text2@,
                    "Federal Skilled Worker"@,
                )
                &&& v.pathway.spec_is_fst() == text_contains(
                    draw_text2@,
                    "Federal Skilled Trades"@,
                )
                &&& v.size == int_text_value(draw_size@)
                &&& v.score == int_text_value(draw_crs@)
            },
    {
        let id_ok = str_eq(draw_number, "91a") || str_eq(draw_number, "91b")
            || is_valid_int_text(draw_number);
        if !id_ok {
            return None;
        }
        let id = InviteId::parse(draw_number);
        let date = match Date::parse(draw_date_full) {
            Some(d) => d,
            None => {
                return None;
            },
        };
        if !is_valid_int_text(draw_size) {
            return None;
        }
        let size = parse_i32(draw_size);
        if size < 0 || size as i64 > COUNT_LIMIT {
            return None;
        }
        if !is_valid_int_text(draw_crs) {
            return None;
        }
        let score = parse_i32(draw_crs);
        if score < 0 || score as i64 > SCORE_TOP {
            return None;
        }
        let category = Category::parse(draw_name);
        let pathway = Pathway::parse(draw_text2);
        Some(
            Invite {
                id,
                date,
                category,
                pathway,
                size: size as i64,
                score: score as i64,
            },
        )
    }

    /// The round's category and pathway set were both recognised.
    pub fn is_valid(&self) -> (r: bool)
        ensures
            r == (self.category.code != crate::category::CategoryCode::Invalid && (
            self.pathway.spec_is_cec() || self.pathway.spec_is_fst() || self.pathway.spec_is_fsw()
                || self.pathway.spec_is_pnp())),
    {
        self.category.is_valid() && self.pathway.is_valid()
    }
}

} // verus!
