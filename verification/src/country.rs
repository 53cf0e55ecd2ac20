//! The closed set of countries that can hold seats.  Every validating
//! component shares this one type instead of ad-hoc string comparison.

use vstd::prelude::*;

verus! {

#[derive(Clone, Copy, PartialEq, Eq, Structural, Debug)]
pub enum Country {
    Austria,
    England,
    France,
    Germany,
    Italy,
    Russia,
    Turkey,
}

impl Country {
    /// Position of this country in the lexicographic order of the seven
    /// lowercase names; sorting by rank is sorting by name.
    pub open spec fn rank(self) -> u8 {
        match self {
            Country::Austria => 0u8,
            Country::England => 1u8,
            Country::France => 2u8,
            Country::Germany => 3u8,
            Country::Italy => 4u8,
            Country::Russia => 5u8,
            Country::Turkey => 6u8,
        }
    }

    /// The UTF-8 bytes of the lowercase country name.
    pub open spec fn name_spec(self) -> Seq<u8> {
        match self {
            Country::Austria => seq![97u8, 117u8, 115u8, 116u8, 114u8, 105u8, 97u8],
            Country::England => seq![101u8, 110u8, 103u8, 108u8, 97u8, 110u8, 100u8],
            Country::France => seq![102u8, 114u8, 97u8, 110u8, 99u8, 101u8],
            Country::Germany => seq![103u8, 101u8, 114u8, 109u8, 97u8, 110u8, 121u8],
            Country::Italy => seq![105u8, 116u8, 97u8, 108u8, 121u8],
            Country::Russia => seq![114u8, 117u8, 115u8, 115u8, 105u8, 97u8],
            Country::Turkey => seq![116u8, 117u8, 114u8, 107u8, 101u8, 121u8],
        }
    }

    pub fn rank_value(self) -> (r: u8)
        ensures
            r == self.rank(),
    {
        match self {
            Country::Austria => 0u8,
            Country::England => 1u8,
            Country::France => 2u8,
            Country::Germany => 3u8,
            Country::Italy => 4u8,
            Country::Russia => 5u8,
            Country::Turkey => 6u8,
        }
    }

    /// The lowercase country name as bytes.
    pub fn name(self) -> (r: Vec<u8>)
        ensures
            r@ == self.name_spec(),
    {
        let mut v: Vec<u8> = Vec::new();
        match self {
            Country::Austria => {
                v.push(97u8);
                v.push(117u8);
                v.push(115u8);
                v.push(116u8);
                v.push(114u8);
                v.push(105u8);
                v.push(97u8);
            },
            Country::England => {
                v.push(101u8);
                v.push(110u8);
                v.push(103u8);
                v.push(108u8);
                v.push(97u8);
                v.push(110u8);
                v.push(100u8);
            },
            Country::France => {
                v.push(102u8);
                v.push(114u8);
                v.push(97u8);
                v.push(110u8);
                v.push(99u8);
                v.push(101u8);
            },
            Country::Germany => {
                v.push(103u8);
                v.push(101u8);
                v.push(114u8);
                v.push(109u8);
                v.push(97u8);
                v.push(110u8);
                v.push(121u8);
            },
            Country::Italy => {
                v.push(105u8);
                v.push(116u8);
                v.push(97u8);
                v.push(108u8);
                v.push(121u8);
            },
            Country::Russia => {
                v.push(114u8);
                v.push(117u8);
                v.push(115u8);
                v.push(115u8);
                v.push(105u8);
                v.push(97u8);
            },
            Country::Turkey => {
                v.push(116u8);
                v.push(117u8);
                v.push(114u8);
                v.push(107u8);
                v.push(101u8);
                v.push(121u8);
            },
        }
        proof {
            assert(v@ =~= self.name_spec());
        }
        v
    }
}

/// Distinct countries have distinct ranks.
pub proof fn lemma_rank_injective(a: Country, b: Country)
    requires
        a.rank() == b.rank(),
    ensures
        a == b,
{
}

/// Distinct countries have distinct names (the first bytes already differ).
pub proof fn lemma_name_injective(a: Country, b: Country)
    requires
        a.name_spec() == b.name_spec(),
    ensures
        a == b,
{
    if a != b {
        assert(a.name_spec()[0] != b.name_spec()[0]);
    }
}

/// The country whose name is `s`, if any.
pub open spec fn country_of(s: Seq<u8>) -> Option<Country> {
    if s == Country::Austria.name_spec() {
        Some(Country::Austria)
    } else if s == Country::England.name_spec() {
        Some(Country::England)
    } else if s == Country::France.name_spec() {
        Some(Country::France)
    } else if s == Country::Germany.name_spec() {
        Some(Country::Germany)
    } else if s == Country::Italy.name_spec() {
        Some(Country::Italy)
    } else if s == Country::Russia.name_spec() {
        Some(Country::Russia)
    } else if s == Country::Turkey.name_spec() {
        Some(Country::Turkey)
    } else {
        None
    }
}

/// Looking a country's own name up finds that country.
pub proof fn lemma_country_of_name(c: Country)
    ensures
        country_of(c.name_spec()) == Some(c),
{
    match country_of(c.name_spec()) {
        Some(d) => {
            lemma_name_injective(c, d);
        },
        None => {
            assert(false);
        },
    }
}

/// A name that parses is the parsed country's own name.
pub proof fn lemma_country_of_inverse(s: Seq<u8>)
    requires
        country_of(s) is Some,
    ensures
        s == country_of(s).unwrap().name_spec(),
{
}

/// Parses a country name.
pub fn country_from_bytes(s: &Vec<u8>) -> (r: Option<Country>)
    ensures
        r == country_of(s@),
{
    let candidates: [Country; 7] = [
        Country::Austria,
        Country::England,
        Country::France,
        Country::Germany,
        Country::Italy,
        Country::Russia,
        Country::Turkey,
    ];
    let mut i: usize = 0;
    while i < 7
        invariant
            i <= 7,
            candidates@.len() == 7,
            candidates@[0] == Country::Austria,
            candidates@[1] == Country::England,
            candidates@[2] == Country::France,
            candidates@[3] == Country::Germany,
            candidates@[4] == Country::Italy,
            candidates@[5] == Country::Russia,
            candidates@[6] == Country::Turkey,
            forall|j: int| 0 <= j < i ==> s@ != (#[trigger] candidates@[j]).name_spec(),
        decreases 7 - i,
    {
        let c = candidates[i];
        let n = c.name();
        if crate::bytes::eq_bytes(s, &n) {
            return Some(c);
        }
        i = i + 1;
    }
    None
}

/// Whether `s` names one of the seven countries.
pub fn valid_country(s: &Vec<u8>) -> (r: bool)
    ensures
        r == (country_of(s@) is Some),
{
    country_from_bytes(s).is_some()
}

} // verus!
