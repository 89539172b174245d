//! Links to the live track of a contact.
use vstd::prelude::*;

use crate::text::{
    alnum_only, ascii_lower, case_mappings_touch_letters_only, join, keep_alnum,
    only_letters_and_digits_are_kept, to_ascii_lower,
};

verus! {

/// The address as it stands in a link: its ASCII letters and digits, in lower case.
pub open spec fn link_address(hex: Seq<char>) -> Seq<char> {
    ascii_lower(alnum_only(hex))
}

/// The link to the live track of the contact with address `hex`. An address without a letter or
/// digit is refused.
pub fn globe_url(hex: &str) -> (r: Result<String, String>)
    ensures
        (match r {
            Ok(url) => link_address(hex@).len() > 0 && url@
                == "https://globe.adsbexchange.com/?icao="@ + link_address(hex@),
            Err(e) => link_address(hex@).len() == 0 && e@ == "no ICAO hex to track"@,
        }),
{
    let kept: String = keep_alnum(hex);
    let clean: String = to_ascii_lower(kept.as_str());
    if clean.as_str().is_empty() {
        return Err("no ICAO hex to track".to_owned());
    }
    Ok(join("https://globe.adsbexchange.com/?icao=", clean.as_str()))
}

/// The address in a link holds the ASCII letters and digits of the given one, in order, with
/// letters in lower case, and nothing else.
pub proof fn link_addresses_are_lower_case(hex: Seq<char>)
    ensures
        ({
            let kept = hex.filter(
                |c: char| '0' <= c <= '9' || 'a' <= c <= 'z' || 'A' <= c <= 'Z',
            );
            let link = link_address(hex);
            &&& link.len() == kept.len()
            &&& forall|i: int|
                0 <= i < kept.len() ==> {
                    let c = #[trigger] kept[i];
                    &&& 'A' <= c <= 'Z' ==> link[i] as int == c as int + 32
                    &&& !('A' <= c <= 'Z') ==> link[i] == c
                }
        }),
{
    only_letters_and_digits_are_kept(hex);
    let kept = alnum_only(hex);
    assert forall|i: int| 0 <= i < kept.len() implies {
        let c = #[trigger] kept[i];
        &&& 'A' <= c <= 'Z' ==> link_address(hex)[i] as int == c as int + 32
        &&& !('A' <= c <= 'Z') ==> link_address(hex)[i] == c
    } by {
        case_mappings_touch_letters_only(kept, i);
    }
}

} // verus!
