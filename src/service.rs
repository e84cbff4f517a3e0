//! Small pieces of the front-ends' request handling: HTTP status texts and
//! the field name of a multipart body part.

use vstd::prelude::*;
use vstd::string::StringSliceAdditionalSpecFns;
use vstd::utf8::is_char_boundary;

verus! {

/// The reason phrase shown for an HTTP status code.
pub open spec fn status_text(code: u16) -> Seq<char> {
    if code == 200 {
        "OK"@
    } else if code == 204 {
        "No Data"@
    } else if code == 400 {
        "Bad Request"@
    } else if code == 500 {
        "Internal Server Error"@
    } else {
        "Unknown Status Type"@
    }
}

/// Return the human-readable status message for an HTTP response code.
pub fn status_message(code: u16) -> (r: &'static str)
    ensures
        r@ == status_text(code),
{
    match code {
        200 => "OK",
        204 => "No Data",
        400 => "Bad Request",
        500 => "Internal Server Error",
        _ => "Unknown Status Type",
    }
}

/// The bytes of `name="`.
pub open spec fn name_key() -> Seq<u8> {
    seq![110u8, 97u8, 109u8, 101u8, 61u8, 34u8]
}

/// ASCII `"`.
pub const DOUBLE_QUOTE: u8 = 34;

/// `name="` stands at byte `i`.
pub open spec fn key_at(b: Seq<u8>, i: int) -> bool {
    0 <= i && i + 6 <= b.len() && b.subrange(i, i + 6) == name_key()
}

/// `i` is the first place where `name="` stands.
pub open spec fn first_key(b: Seq<u8>, i: int) -> bool {
    key_at(b, i) && forall|k: int| 0 <= k < i ==> !#[trigger] key_at(b, k)
}

/// `j` is the first `"` at or after `from`.
pub open spec fn first_quote_from(b: Seq<u8>, from: int, j: int) -> bool {
    from <= j < b.len() && b[j] == DOUBLE_QUOTE && forall|k: int|
        from <= k < j ==> #[trigger] b[k] != DOUBLE_QUOTE
}

fn find_key(b: &[u8]) -> (r: Option<usize>)
    ensures
        r matches Some(i) ==> first_key(b@, i as int),
        r is None ==> forall|k: int| !#[trigger] key_at(b@, k),
{
    let n = b.len();
    if n < 6 {
        proof {
            assert forall|k: int| !#[trigger] key_at(b@, k) by {}
        }
        return None;
    }
    let mut i: usize = 0;
    while i <= n - 6
        invariant
            n == b@.len(),
            n >= 6,
            forall|k: int| 0 <= k < i ==> !#[trigger] key_at(b@, k),
        decreases n - i,
    {
        if b[i] == 110 && b[i + 1] == 97 && b[i + 2] == 109 && b[i + 3] == 101 && b[i + 4] == 61
            && b[i + 5] == DOUBLE_QUOTE {
            assert(b@.subrange(i as int, i + 6) =~= name_key());
            return Some(i);
        }
        assert(!key_at(b@, i as int)) by {
            if key_at(b@, i as int) {
                assert(b@.subrange(i as int, i + 6)[0] == b@[i as int]);
                assert(b@.subrange(i as int, i + 6)[1] == b@[i + 1]);
                assert(b@.subrange(i as int, i + 6)[2] == b@[i + 2]);
                assert(b@.subrange(i as int, i + 6)[3] == b@[i + 3]);
                assert(b@.subrange(i as int, i + 6)[4] == b@[i + 4]);
                assert(b@.subrange(i as int, i + 6)[5] == b@[i + 5]);
            }
        }
        i = i + 1;
    }
    assert forall|k: int| !#[trigger] key_at(b@, k) by {
        if 0 <= k < i {
        }
    }
    None
}

fn find_quote(b: &[u8], from: usize) -> (r: Option<usize>)
    requires
        from <= b@.len(),
    ensures
        r matches Some(j) ==> first_quote_from(b@, from as int, j as int),
        r is None ==> forall|k: int| from <= k < b@.len() ==> #[trigger] b@[k] != DOUBLE_QUOTE,
{
    let mut j: usize = from;
    while j < b.len()
        invariant
            from <= j <= b@.len(),
            forall|k: int| from <= k < j ==> #[trigger] b@[k] != DOUBLE_QUOTE,
        decreases b@.len() - j,
    {
        if b[j] == DOUBLE_QUOTE {
            return Some(j);
        }
        j = j + 1;
    }
    None
}

/// The field name runs from after the first `name="` at `i` to the first
/// `"` after it, at `j`.
pub open spec fn field_bounds(b: Seq<u8>, i: int, j: int) -> bool {
    first_key(b, i) && first_quote_from(b, i + 6, j)
}

/// Given the value of the `content-disposition` header of a
/// multipart/form-data body part, return the form field name: the text
/// between the first `name="` and the next `"`. `None` where there is no
/// such text, or where it would not start and end on character boundaries.
pub fn field_name_from_content_disposition<'a>(val: &'a str) -> (r: Option<&'a str>)
    ensures
        r matches Some(s) ==> exists|i: int, j: int|
            #[trigger] field_bounds(val.spec_bytes(), i, j) && s.spec_bytes()
                == val.spec_bytes().subrange(i + 6, j),
        r is None ==> forall|i: int, j: int|
            #[trigger] field_bounds(val.spec_bytes(), i, j) ==> !(is_char_boundary(
                val.spec_bytes(),
                i + 6,
            ) && is_char_boundary(val.spec_bytes(), j)),
{
    let b = val.as_bytes();
    let n = b.len();
    let i = match find_key(b) {
        Some(i) => i,
        None => {
            return None;
        },
    };
    let start = i + 6;
    let j = match find_quote(b, start) {
        Some(j) => j,
        None => {
            proof {
                assert forall|i2: int, j2: int| #[trigger] field_bounds(b@, i2, j2) implies false by {
                    if i2 < i {
                        assert(!key_at(b@, i2));
                    } else if i < i2 {
                        assert(!key_at(b@, i as int));
                    }
                    assert(b@[j2] == DOUBLE_QUOTE);
                }
            }
            return None;
        },
    };
    if !val.is_char_boundary(start) || !val.is_char_boundary(j) {
        proof {
            assert forall|i2: int, j2: int| #[trigger]
                field_bounds(val.spec_bytes(), i2, j2) implies !(is_char_boundary(val.spec_bytes(), i2 + 6) && is_char_boundary(
                val.spec_bytes(),
                j2,
            )) by {
                if i2 < i {
                    assert(!key_at(b@, i2));
                } else if i < i2 {
                    assert(!key_at(b@, i as int));
                }
                if j2 < j {
                    assert(b@[j2] != DOUBLE_QUOTE);
                } else if j < j2 {
                    assert(b@[j as int] != DOUBLE_QUOTE);
                }
            }
        }
        return None;
    }
    let (head, _) = val.split_at(j);
    assert(head.spec_bytes() =~= b@.subrange(0, j as int));
    proof {
        vstd::utf8::encode_utf8_valid_utf8(val@);
        vstd::utf8::encode_utf8_valid_utf8(head@);
        if start < j {
            vstd::utf8::is_char_boundary_iff_not_is_continuation_byte(b@, start as int);
            vstd::utf8::is_char_boundary_iff_not_is_continuation_byte(head.spec_bytes(), start as int);
            assert(head.spec_bytes()[start as int] == b@[start as int]);
        } else {
            vstd::utf8::is_char_boundary_start_end_of_seq(head.spec_bytes());
        }
    }
    let (_, name) = head.split_at(start);
    assert(name.spec_bytes() =~= b@.subrange(start as int, j as int));
    assert(field_bounds(b@, i as int, j as int));
    Some(name)
}

} // verus!
