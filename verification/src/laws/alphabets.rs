//! Which octets may stand where.
use crate::cli::registry;
use crate::domain::target;
use crate::fields;
use crate::ip;
use crate::octets;
use crate::server::http1;
use crate::text;
use vstd::prelude::*;

verus! {

/// A token holds visible ASCII without the delimiters of a header field.
pub proof fn a_token_holds_visible_octets_without_delimiters(b: u8)
    ensures
        fields::is_token_octet(b) <==> 0x21 <= b <= 0x7e && !(b == 0x22 || b == 0x28 || b == 0x29 || b
            == 0x2c || b == 0x2f || 0x3a <= b <= 0x40 || 0x5b <= b <= 0x5d || b == 0x7b || b
            == 0x7d),
{
}

/// A field value holds everything but control characters; the tab is none of these.
pub proof fn a_field_value_holds_no_control_character(b: u8)
    ensures
        !fields::is_value_octet(b) <==> b <= 8 || 10 <= b <= 31 || b == 127,
        !http1::is_quoted_octet(b) <==> b <= 8 || 10 <= b <= 31 || b == 127,
        octets::is_control(b) <==> b <= 31 || b == 127,
        fields::is_blank(b) <==> b == 9 || b == 32,
{
}

/// Outside percent escapes a target holds visible ASCII without the marks that no URI holds.
pub proof fn a_target_holds_uri_octets(b: u8)
    ensures
        target::is_uri_octet(b) <==> 0x21 <= b <= 0x7e && !(b == 0x22 || b == 0x23 || b == 0x25 || b
            == 0x3c || b == 0x3e || b == 0x5c || b == 0x5e || b == 0x60 || 0x7b <= b <= 0x7d),
        target::is_authority_breaker(b) <==> b <= 0x20 || b == 0x23 || b == 0x2f || b == 0x3f || b
            == 0x40 || b == 0x7f,
{
}

/// The digits of either case: each has its own value below sixteen, and a letter the same in both
/// cases.
pub proof fn digits_have_their_values(b: u8)
    ensures
        octets::is_digit(b) <==> 48 <= b <= 57,
        octets::is_digit(b) ==> octets::hex_digit(b) == b - 48,
        octets::is_alpha(b) <==> 65 <= b <= 90 || 97 <= b <= 122,
        octets::is_hex(b) <==> 48 <= b <= 57 || 65 <= b <= 70 || 97 <= b <= 102,
        65 <= b <= 70 ==> octets::hex_digit(b) == b - 55 && octets::hex_digit((b + 32) as u8) == b - 55,
{
}

/// Lower case changes the capital letters of ASCII and nothing else.
pub proof fn lower_case_changes_capitals_only(s: Seq<u8>, i: int)
    requires
        0 <= i < s.len(),
    ensures
        octets::lower(s).len() == s.len(),
        octets::lower(s)[i] == (if 65 <= s[i] <= 90 {
            (s[i] + 32) as u8
        } else {
            s[i]
        }),
        octets::lower(octets::lower(s)) == octets::lower(s),
{
    assert(octets::lower(octets::lower(s)) =~= octets::lower(s));
}

/// A hexadecimal number is the same number in either case.
pub proof fn hexadecimal_ignores_case(s: Seq<u8>)
    requires
        ip::all_hex(s),
    ensures
        ip::all_hex(octets::lower(s)),
        ip::hexadecimal(octets::lower(s)) == ip::hexadecimal(s),
    decreases s.len(),
{
    let l = octets::lower(s);
    assert forall|i: int| 0 <= i < l.len() implies octets::is_hex(#[trigger] l[i]) by {
        assert(octets::is_hex(s[i]));
    }
    if s.len() > 0 {
        assert(octets::is_hex(s[s.len() - 1]));
        assert forall|i: int| 0 <= i < s.drop_last().len() implies octets::is_hex(
            #[trigger] s.drop_last()[i],
        ) by {
            assert(octets::is_hex(s[i]));
        }
        hexadecimal_ignores_case(s.drop_last());
        assert(l.drop_last() =~= octets::lower(s.drop_last()));
    }
}

/// White space is what Unicode calls so: 25 characters.
pub proof fn white_space_is_that_of_unicode(c: char)
    ensures
        text::white_space(c) <==> {
            let n = c as int;
            9 <= n <= 13 || n == 0x20 || n == 0x85 || n == 0xa0 || n == 0x1680 || 0x2000 <= n
                <= 0x200a || n == 0x2028 || n == 0x2029 || n == 0x202f || n == 0x205f || n == 0x3000
        },
{
}

/// In a challenge or a link the characters of a name are those of a token, and everything outside
/// ASCII but white space.
pub proof fn a_name_is_made_of_token_characters(c: char)
    ensures
        c as int <= 127 ==> registry::name_char(c) == fields::is_token_octet(c as u8),
        c as int > 127 ==> registry::name_char(c) == !text::white_space(c),
{
}

/// ASCII octets are those below 128.
pub proof fn ascii_ends_at_127(s: Seq<u8>)
    ensures
        octets::is_ascii(s) <==> forall|i: int| 0 <= i < s.len() ==> #[trigger] s[i] <= 127,
{
}

} // verus!
