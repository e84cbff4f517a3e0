//! Lines of a font list: a font family name, a comma, then the pixel sizes
//! wanted for it, separated by whitespace (`Liberation Mono, 8 9 10 12`).

use vstd::prelude::*;
use vstd::std_specs::iter::IteratorSpec;

verus! {

broadcast use vstd::string::group_string_axioms;

/// The Unicode `White_Space` characters.
pub open spec fn is_ws(c: char) -> bool {
    let n = c as u32;
    (0x09 <= n <= 0x0D) || n == 0x20 || n == 0x85 || n == 0xA0 || n == 0x1680 || (0x2000 <= n
        <= 0x200A) || n == 0x2028 || n == 0x2029 || n == 0x202F || n == 0x205F || n == 0x3000
}

fn is_ws_char(c: char) -> (r: bool)
    ensures
        r == is_ws(c),
{
    let n = c as u32;
    (0x09 <= n && n <= 0x0D) || n == 0x20 || n == 0x85 || n == 0xA0 || n == 0x1680 || (0x2000
        <= n && n <= 0x200A) || n == 0x2028 || n == 0x2029 || n == 0x202F || n == 0x205F || n
        == 0x3000
}

/// A decimal digit.
pub open spec fn is_digit_char(c: char) -> bool {
    '0' <= c <= '9'
}

/// The number a run of decimal digits spells.
pub open spec fn char_numeral(ds: Seq<char>) -> nat
    decreases ds.len(),
{
    if ds.len() == 0 {
        0
    } else {
        char_numeral(ds.drop_last()) * 10 + (ds.last() as u32 - 48) as nat
    }
}

/// The pieces between whitespace characters, empty ones included, in order.
pub open spec fn split_ws(b: Seq<char>) -> Seq<Seq<char>>
    decreases b.len(),
{
    if b.len() == 0 {
        seq![Seq::empty()]
    } else {
        let r = split_ws(b.drop_last());
        if is_ws(b.last()) {
            r.push(Seq::empty())
        } else {
            r.update(r.len() - 1, r.last().push(b.last()))
        }
    }
}

/// The piece without a leading `+`.
pub open spec fn unsigned_part(t: Seq<char>) -> Seq<char> {
    if t.len() > 0 && t[0] == '+' {
        t.drop_first()
    } else {
        t
    }
}

/// Every character is a decimal digit.
pub open spec fn all_digits(ds: Seq<char>) -> bool {
    forall|i: int| 0 <= i < ds.len() ==> is_digit_char(#[trigger] ds[i])
}

/// A size written as an optional `+` and decimal digits, at most 65535.
pub open spec fn size_of(t: Seq<char>) -> Option<u16> {
    let ds = unsigned_part(t);
    if ds.len() > 0 && all_digits(ds) && char_numeral(ds) <= 65535 {
        Some(char_numeral(ds) as u16)
    } else {
        None
    }
}

/// The sizes of the pieces that are sizes, in order.
pub open spec fn sizes_of(pieces: Seq<Seq<char>>) -> Seq<u16>
    decreases pieces.len(),
{
    if pieces.len() == 0 {
        Seq::empty()
    } else {
        let r = sizes_of(pieces.drop_last());
        match size_of(pieces.last()) {
            Some(n) => r.push(n),
            None => r,
        }
    }
}

proof fn lemma_numeral_prefix(ds: Seq<char>, k: int)
    requires
        0 <= k <= ds.len(),
        all_digits(ds),
    ensures
        char_numeral(ds.take(k)) <= char_numeral(ds),
    decreases ds.len(),
{
    if k < ds.len() {
        let q = ds.drop_last();
        assert(q.take(k) =~= ds.take(k));
        lemma_numeral_prefix(q, k);
    } else {
        assert(ds.take(k) =~= ds);
    }
}

/// The size that the characters `b[from..to]` spell, if they spell one.
fn parse_size(b: &Vec<char>, from: usize, to: usize) -> (r: Option<u16>)
    requires
        from <= to <= b@.len(),
    ensures
        r == size_of(b@.subrange(from as int, to as int)),
{
    let ghost t = b@.subrange(from as int, to as int);
    let mut i = from;
    if i < to && b[i] == '+' {
        i = i + 1;
    }
    let ghost ds = b@.subrange(i as int, to as int);
    assert(ds =~= unsigned_part(t));
    if i == to {
        return None;
    }
    let start = i;
    let mut v: u32 = 0;
    while i < to
        invariant
            from <= start <= i <= to <= b@.len(),
            start < to,
            t == b@.subrange(from as int, to as int),
            ds == b@.subrange(start as int, to as int),
            ds == unsigned_part(t),
            forall|k: int| start <= k < i ==> is_digit_char(#[trigger] b@[k]),
            v == char_numeral(b@.subrange(start as int, i as int)),
            v <= 65535,
        decreases to - i,
    {
        let c = b[i];
        if c < '0' || c > '9' {
            assert(ds[i - start] == b@[i as int]);
            assert(!all_digits(ds));
            return None;
        }
        let ghost prev = b@.subrange(start as int, i as int);
        let ghost next = b@.subrange(start as int, i + 1);
        assert(next.drop_last() =~= prev);
        assert(next.last() == c);
        v = v * 10 + (c as u32 - 48);
        if v > 65535 {
            proof {
                if all_digits(ds) {
                    assert(next =~= ds.take(i + 1 - start));
                    lemma_numeral_prefix(ds, i + 1 - start);
                }
            }
            return None;
        }
        i = i + 1;
    }
    assert(b@.subrange(start as int, i as int) =~= ds);
    assert(all_digits(ds)) by {
        assert forall|k: int| 0 <= k < ds.len() implies is_digit_char(#[trigger] ds[k]) by {
            assert(ds[k] == b@[start + k]);
        }
    }
    Some(v as u16)
}

/// How many commas there are.
pub open spec fn comma_count(b: Seq<char>) -> nat
    decreases b.len(),
{
    if b.len() == 0 {
        0
    } else {
        comma_count(b.drop_last()) + if b.last() == ',' {
            1nat
        } else {
            0nat
        }
    }
}

/// `c` is the place of the first comma.
pub open spec fn first_comma(b: Seq<char>, c: int) -> bool {
    0 <= c < b.len() && b[c] == ',' && forall|k: int| 0 <= k < c ==> #[trigger] b[k] != ','
}

/// The sizes listed after the comma at `c`.
pub open spec fn listed_sizes(b: Seq<char>, c: int) -> Seq<u16> {
    sizes_of(split_ws(b.subrange(c + 1, b.len() as int)))
}

/// `b[a..z]` is `b[0..c]` without leading and trailing whitespace, and is
/// not empty.
pub open spec fn name_span(b: Seq<char>, c: int, a: int, z: int) -> bool {
    &&& 0 <= a < z <= c
    &&& forall|k: int| 0 <= k < a ==> is_ws(#[trigger] b[k])
    &&& forall|k: int| z <= k < c ==> is_ws(#[trigger] b[k])
    &&& !is_ws(b[a])
    &&& !is_ws(b[z - 1])
}

/// Everything before `c` is whitespace.
pub open spec fn blank_before(b: Seq<char>, c: int) -> bool {
    forall|k: int| 0 <= k < c ==> is_ws(#[trigger] b[k])
}

proof fn lemma_comma_count_take(b: Seq<char>, k: int)
    requires
        0 <= k < b.len(),
    ensures
        comma_count(b.take(k + 1)) == comma_count(b.take(k)) + if b[k] == ',' {
            1nat
        } else {
            0nat
        },
{
    assert(b.take(k + 1).drop_last() =~= b.take(k));
}

/// The characters of `s`, in order.
fn chars_of(s: &str) -> (r: Vec<char>)
    ensures
        r@ == s@,
{
    let mut it = s.chars();
    let mut v: Vec<char> = Vec::new();
    assert(it.remaining() == s@);
    loop
        invariant
            v@ + it.remaining() == s@,
        decreases s@.len() - v@.len(),
    {
        let ghost before = it.remaining();
        match it.next() {
            Some(c) => {
                v.push(c);
                assert(v@ + it.remaining() =~= s@) by {
                    assert(before == seq![c] + it.remaining());
                }
            },
            None => {
                assert(v@ =~= s@);
                return v;
            },
        }
    }
}

/// Relies on `String::push`, which appends one character.
#[verifier::external_body]
fn push_char(s: &mut String, c: char)
    ensures
        final(s)@ == old(s)@.push(c),
{
    s.push(c)
}

/// Parse a line of a font list into the font name and the sizes wanted.
///
/// The line must hold exactly one comma. The name is the text before it
/// without surrounding whitespace, and must not be empty. The sizes are the
/// pieces of the text after the comma, split at each whitespace character,
/// that read as a `u16` (an optional `+` and digits); there must be at
/// least one. Whitespace is Unicode `White_Space`.
#[verifier::rlimit(60)]
pub fn parse_input_line(line: &str) -> (r: Result<(String, Vec<u16>), String>)
    ensures
        comma_count(line@) != 1 ==> (r matches Err(e) && e@ == "improper input format"@),
        forall|c: int|
            #[trigger] first_comma(line@, c) && comma_count(line@) == 1 ==> {
                let b = line@;
                if blank_before(b, c) {
                    r matches Err(e) && e@ == "no valid font name"@
                } else if listed_sizes(b, c).len() == 0 {
                    r matches Err(e) && e@ == "no valid font sizes"@
                } else {
                    r matches Ok((name, sizes)) && sizes@ == listed_sizes(b, c) && exists|
                        a: int,
                        z: int,
                    | #[trigger] name_span(b, c, a, z) && name@ == b.subrange(a, z)
                }
            },
{
    let b = chars_of(line);
    let n = b.len();
    let mut count: usize = 0;
    let mut c: usize = 0;
    let mut k: usize = 0;
    while k < n
        invariant
            n == b@.len(),
            k <= n,
            count <= 2,
            count == if comma_count(b@.take(k as int)) > 2 {
                2
            } else {
                comma_count(b@.take(k as int))
            },
            count >= 1 ==> first_comma(b@, c as int),
            count == 0 ==> forall|j: int| 0 <= j < k ==> #[trigger] b@[j] != ',',
        decreases n - k,
    {
        proof {
            lemma_comma_count_take(b@, k as int);
        }
        if b[k] == ',' {
            if count == 0 {
                c = k;
            }
            if count < 2 {
                count = count + 1;
            }
        }
        k = k + 1;
    }
    assert(b@.take(n as int) =~= b@);
    if count != 1 {
        return Err(String::from_str("improper input format"));
    }
    let ghost bb = b@;
    assert(forall|c2: int| #[trigger] first_comma(bb, c2) ==> c2 == c) by {
        assert forall|c2: int| #[trigger] first_comma(bb, c2) implies c2 == c by {
            if c2 < c {
                assert(bb[c2] != ',');
            } else if c < c2 {
                assert(bb[c as int] != ',');
            }
        }
    }
    let mut a: usize = 0;
    while a < c && is_ws_char(b[a])
        invariant
            n == b@.len(),
            c < n,
            a <= c,
            forall|j: int| 0 <= j < a ==> is_ws(#[trigger] b@[j]),
        decreases c - a,
    {
        a = a + 1;
    }
    if a == c {
        return Err(String::from_str("no valid font name"));
    }
    let mut z: usize = c;
    while z > a + 1 && is_ws_char(b[z - 1])
        invariant
            n == b@.len(),
            a < z <= c < n,
            forall|j: int| z <= j < c ==> is_ws(#[trigger] b@[j]),
        decreases z,
    {
        z = z - 1;
    }
    assert(name_span(b@, c as int, a as int, z as int));
    let mut sizes: Vec<u16> = Vec::new();
    let ghost tail = b@.subrange(c + 1, n as int);
    let mut start: usize = c + 1;
    let mut k: usize = c + 1;
    proof {
        assert(tail.take(0) =~= Seq::<char>::empty());
        assert(split_ws(tail.take(0)).drop_last() =~= Seq::<Seq<char>>::empty());
        assert(b@.subrange(start as int, k as int) =~= Seq::<char>::empty());
    }
    while k < n
        invariant
            n == b@.len(),
            c + 1 <= start <= k <= n,
            tail == b@.subrange(c + 1, n as int),
            sizes@ == sizes_of(split_ws(tail.take(k - c - 1)).drop_last()),
            split_ws(tail.take(k - c - 1)).len() >= 1,
            split_ws(tail.take(k - c - 1)).last() == b@.subrange(start as int, k as int),
        decreases n - k,
    {
        let ghost j = k - c - 1;
        let ghost old_split = split_ws(tail.take(j));
        assert(tail.take(j + 1).drop_last() =~= tail.take(j));
        assert(tail.take(j + 1).last() == b@[k as int]);
        if is_ws_char(b[k]) {
            let found = parse_size(&b, start, k);
            proof {
                assert(split_ws(tail.take(j + 1)) == old_split.push(Seq::empty()));
                assert(split_ws(tail.take(j + 1)).drop_last() =~= old_split);
                assert(old_split =~= old_split.drop_last().push(old_split.last()));
            }
            match found {
                Some(v) => sizes.push(v),
                None => {},
            }
            start = k + 1;
            assert(b@.subrange(start as int, k + 1) =~= Seq::<char>::empty());
        } else {
            proof {
                let new_split = split_ws(tail.take(j + 1));
                assert(new_split == old_split.update(
                    old_split.len() - 1,
                    old_split.last().push(b@[k as int]),
                ));
                assert(new_split.drop_last() =~= old_split.drop_last());
                assert(b@.subrange(start as int, k + 1) =~= b@.subrange(start as int, k as int).push(
                    b@[k as int],
                ));
            }
        }
        k = k + 1;
    }
    let last = parse_size(&b, start, n);
    proof {
        let sp = split_ws(tail.take(n - c - 1));
        assert(tail.take(n - c - 1) =~= tail);
        assert(sp =~= sp.drop_last().push(sp.last()));
    }
    match last {
        Some(v) => sizes.push(v),
        None => {},
    }
    assert(sizes@ == listed_sizes(b@, c as int));
    if sizes.len() == 0 {
        return Err(String::from_str("no valid font sizes"));
    }
    let mut name = String::new();
    let mut i: usize = a;
    while i < z
        invariant
            a <= i <= z <= n,
            n == b@.len(),
            name@ == b@.subrange(a as int, i as int),
        decreases z - i,
    {
        push_char(&mut name, b[i]);
        assert(b@.subrange(a as int, i + 1) =~= b@.subrange(a as int, i as int).push(b@[i as int]));
        i = i + 1;
    }
    Ok((name, sizes))
}

} // verus!
